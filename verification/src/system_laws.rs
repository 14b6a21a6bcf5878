//! What holds of a commit, or of a pessimistic `set`, that runs against the store while other
//! transactions run beside it.

use vstd::prelude::*;

use crate::action::{ActionView, Event};
use crate::buffer::{
    coalesced, distinct_keys, keys_distinct, keys_of, last_value, lemma_coalesced,
    lemma_distinct_keys,
};
use crate::cell::WriteView;
use crate::client::ClientView;
use crate::commit_op::{
    commit_next, commit_pending, commit_valid, keys_to_release, primary_first, CommitPhaseView,
    CommitView,
};
use crate::error::Error;
use crate::lock_op::{lock_next, lock_pending, lock_start, LockPhaseView, LockView};
use crate::protocol::{applied, replies};
use crate::storage::{
    blocked, committed_after, lock_ts, owns_pessimistic_lock, prewrite_outcome, primary_or_key,
    resolved, snapshot,
};
use crate::store_laws::{
    applied_all, commits_alone, durable, foreign, lemma_commit_lasts, lemma_durable_value_is_read,
    lemma_others_commit_nothing, lemma_others_keep_commits_alone, lemma_others_keep_durable,
    lemma_others_keep_staged, lemma_others_take_no_lock, lemma_requests_leave_other_keys,
    may_touch, no_commit_between, nothing_committed, of_another, released, same_cells, staged_only_under_lock, staged_under_lock,
};
use crate::table::TableView;
use crate::txn_laws::{
    commit_rank, lemma_commit_rank, lemma_commit_terminates, lemma_failed_prewrite_releases_locks,
    lemma_primary_first,
};
use crate::versions::{lemma_latest, points_to};

verus! {

/// A commit in progress and the table that it works on.
pub struct World {
    pub op: CommitView,
    pub table: TableView,
}

/// The store serves the commit, which hears `Own`, or it serves another transaction.
pub enum Move {
    Own(Event),
    Other(ActionView),
}

/// The world after a move.
pub open spec fn world_next(w: World, m: Move) -> World {
    match m {
        Move::Own(e) => World {
            op: commit_next(w.op, e),
            table: match commit_pending(w.op) {
                Some(a) => applied(w.table, a),
                None => w.table,
            },
        },
        Move::Other(a) => World { table: applied(w.table, a), ..w },
    }
}

/// The commit hears what the store answers, and the oracle issues `commit_ts`, if anything;
/// no other transaction carries the timestamps of this one.
pub open spec fn world_allows(w: World, m: Move, commit_ts: u64) -> bool {
    match m {
        Move::Own(e) => {
            &&& commit_pending(w.op) matches Some(a)
            &&& replies(w.table, a, e)
            &&& e matches Event::Timestamp(Ok(ts)) ==> ts == commit_ts
        },
        Move::Other(a) => foreign(a, w.op.start_ts, commit_ts),
    }
}

/// The world after a series of moves.
pub open spec fn world_after(w: World, moves: Seq<Move>) -> World
    decreases moves.len(),
{
    if moves.len() == 0 {
        w
    } else {
        world_next(world_after(w, moves.drop_last()), moves.last())
    }
}

/// Every move of the series is allowed where it is made.
pub open spec fn world_run(w: World, moves: Seq<Move>, commit_ts: u64) -> bool
    decreases moves.len(),
{
    moves.len() == 0 || {
        &&& world_run(w, moves.drop_last(), commit_ts)
        &&& world_allows(world_after(w, moves.drop_last()), moves.last(), commit_ts)
    }
}

/// The commit of what `client` has buffered, on `table`.
pub open spec fn world_start(client: ClientView, table: TableView) -> World {
    World { op: client.commit_op(), table }
}

// ---- A commit that succeeds is durable ----

spec fn staged_from(w: World, from: int) -> bool {
    forall|j: int|
        from <= j < w.op.writes.len() ==> staged_under_lock(
            w.table,
            (#[trigger] w.op.writes[j]).0,
            w.op.start_ts,
            w.op.writes[j].1,
        )
}

spec fn staged_up_to(w: World, to: int) -> bool {
    forall|j: int|
        0 <= j < to ==> staged_under_lock(
            w.table,
            (#[trigger] w.op.writes[j]).0,
            w.op.start_ts,
            w.op.writes[j].1,
        )
}

spec fn durable_up_to(w: World, to: int, commit_ts: u64) -> bool {
    forall|j: int|
        0 <= j < to ==> durable(
            w.table,
            (#[trigger] w.op.writes[j]).0,
            w.op.start_ts,
            commit_ts,
            w.op.writes[j].1,
        )
}

spec fn success_inv(w: World, writes: Seq<WriteView>, commit_ts: u64) -> bool {
    &&& commits_alone(w.table, w.op.start_ts, commit_ts)
    &&& keys_distinct(w.op.writes)
    &&& w.op.writes.len() > 0
    &&& commit_valid(w.op)
    &&& forall|i: int| 0 <= i < writes.len() ==> w.op.writes.contains(#[trigger] writes[i])
    &&& match w.op.phase {
        CommitPhaseView::Prewriting { index, .. }
        | CommitPhaseView::Waiting { index, .. } => staged_up_to(w, index as int),
        CommitPhaseView::AwaitingTimestamp => staged_up_to(w, w.op.writes.len() as int),
        CommitPhaseView::Committing { commit_ts: ts, index } => {
            &&& ts == commit_ts
            &&& durable_up_to(w, index as int, commit_ts)
            &&& staged_from(w, index as int)
        },
        CommitPhaseView::RollingBack { outcome, .. } => outcome != Ok::<bool, Error>(true),
        CommitPhaseView::Done(outcome) => outcome == Ok::<bool, Error>(true) ==> durable_up_to(
            w,
            w.op.writes.len() as int,
            commit_ts,
        ),
    }
}

proof fn lemma_other_keeps_success_inv(
    w: World,
    a: ActionView,
    writes: Seq<WriteView>,
    commit_ts: u64,
)
    requires
        success_inv(w, writes, commit_ts),
        foreign(a, w.op.start_ts, commit_ts),
    ensures
        success_inv(world_next(w, Move::Other(a)), writes, commit_ts),
{
    let u = world_next(w, Move::Other(a));
    let s = w.op.start_ts;
    lemma_others_keep_commits_alone(w.table, a, s, commit_ts);
    assert forall|j: int| 0 <= j < w.op.writes.len() && staged_under_lock(
        w.table,
        (#[trigger] w.op.writes[j]).0,
        s,
        w.op.writes[j].1,
    ) implies staged_under_lock(u.table, w.op.writes[j].0, s, w.op.writes[j].1) by {
        lemma_others_keep_staged(
            w.table,
            a,
            w.op.writes[j].0,
            s,
            commit_ts,
            w.op.writes[j].1,
        );
    }
    assert forall|j: int| 0 <= j < w.op.writes.len() && durable(
        w.table,
        (#[trigger] w.op.writes[j]).0,
        s,
        commit_ts,
        w.op.writes[j].1,
    ) implies durable(u.table, w.op.writes[j].0, s, commit_ts, w.op.writes[j].1) by {
        lemma_others_keep_durable(
            w.table,
            a,
            w.op.writes[j].0,
            s,
            commit_ts,
            w.op.writes[j].1,
        );
    }
}

proof fn lemma_own_keeps_success_inv(w: World, e: Event, writes: Seq<WriteView>, commit_ts: u64)
    requires
        success_inv(w, writes, commit_ts),
        world_allows(w, Move::Own(e), commit_ts),
    ensures
        success_inv(world_next(w, Move::Own(e)), writes, commit_ts),
{
    let u = world_next(w, Move::Own(e));
    let s = w.op.start_ts;
    let a = commit_pending(w.op)->0;
    lemma_commit_terminates(w.op, e);
    match w.op.phase {
        CommitPhaseView::Prewriting { index, .. } => {
            let key = w.op.writes[index as int].0;
            assert forall|j: int| 0 <= j < index implies staged_under_lock(
                u.table,
                (#[trigger] w.op.writes[j]).0,
                s,
                w.op.writes[j].1,
            ) by {
                assert(w.op.writes[j].0 != w.op.writes[index as int].0);
                lemma_requests_leave_other_keys(w.table, a, w.op.writes[j].0);
                assert(same_cells(w.table, u.table, w.op.writes[j].0));
                assert(w.table.lock.contains_key((w.op.writes[j].0, s)) == u.table.lock.contains_key(
                    (w.op.writes[j].0, s),
                ));
            }
            if e matches Event::Prewrite(Ok(_)) {
                assert(staged_under_lock(u.table, key, s, w.op.writes[index as int].1));
            }
        },
        CommitPhaseView::Waiting { .. } => {},
        CommitPhaseView::AwaitingTimestamp => {
            lemma_primary_first(w.op.writes, w.op.primary);
            if e matches Event::Timestamp(Ok(_)) {
                let ordered = primary_first(w.op.writes, w.op.primary);
                assert forall|j: int| 0 <= j < ordered.len() implies staged_under_lock(
                    u.table,
                    (#[trigger] ordered[j]).0,
                    s,
                    ordered[j].1,
                ) by {
                    assert(w.op.writes.contains(ordered[j]));
                }
                assert forall|i: int| 0 <= i < writes.len() implies u.op.writes.contains(
                    #[trigger] writes[i],
                ) by {
                    let j = choose|j: int| 0 <= j < w.op.writes.len() && w.op.writes[j] == writes[i];
                    assert(ordered.contains(w.op.writes[j]));
                }
            }
        },
        CommitPhaseView::Committing { commit_ts: ts, index } => {
            let key = w.op.writes[index as int].0;
            assert forall|j: int|
                0 <= j < w.op.writes.len() && j != index && staged_under_lock(
                    w.table,
                    (#[trigger] w.op.writes[j]).0,
                    s,
                    w.op.writes[j].1,
                ) implies staged_under_lock(u.table, w.op.writes[j].0, s, w.op.writes[j].1) by {
                assert(w.op.writes[j].0 != w.op.writes[index as int].0);
                lemma_requests_leave_other_keys(w.table, a, w.op.writes[j].0);
                assert(w.table.lock.contains_key((w.op.writes[j].0, s)) == u.table.lock.contains_key(
                    (w.op.writes[j].0, s),
                ));
            }
            assert forall|j: int|
                0 <= j < w.op.writes.len() && j != index && durable(
                    w.table,
                    (#[trigger] w.op.writes[j]).0,
                    s,
                    commit_ts,
                    w.op.writes[j].1,
                ) implies durable(u.table, w.op.writes[j].0, s, commit_ts, w.op.writes[j].1) by {
                assert(w.op.writes[j].0 != w.op.writes[index as int].0);
                lemma_requests_leave_other_keys(w.table, a, w.op.writes[j].0);
                assert(w.table.write.contains_key((w.op.writes[j].0, commit_ts)));
                assert(w.table.data.contains_key((w.op.writes[j].0, s)));
            }
            assert(staged_under_lock(w.table, key, s, w.op.writes[index as int].1));
            assert(commits_alone(u.table, s, commit_ts)) by {
                assert forall|k: Seq<u8>| #[trigger]
                    u.table.write.contains_key((k, commit_ts)) implies points_to(
                    u.table.write,
                    k,
                    commit_ts,
                    s,
                ) by {
                    if k != key {
                        assert(w.table.write.contains_key((k, commit_ts)));
                    }
                    if w.table.write.contains_key((k, commit_ts)) {
                        assert(points_to(w.table.write, k, commit_ts, s));
                    }
                }
            }
        },
        CommitPhaseView::RollingBack { .. } => {},
        CommitPhaseView::Done(_) => {},
    }
}

proof fn lemma_success_inv(w: World, moves: Seq<Move>, commit_ts: u64)
    requires
        success_inv(w, w.op.writes, commit_ts),
        world_run(w, moves, commit_ts),
    ensures
        success_inv(world_after(w, moves), w.op.writes, commit_ts),
        world_after(w, moves).op.start_ts == w.op.start_ts,
    decreases moves.len(),
{
    if moves.len() > 0 {
        lemma_success_inv(w, moves.drop_last(), commit_ts);
        let before = world_after(w, moves.drop_last());
        match moves.last() {
            Move::Own(e) => lemma_own_keeps_success_inv(before, e, w.op.writes, commit_ts),
            Move::Other(a) => lemma_other_keeps_success_inv(before, a, w.op.writes, commit_ts),
        }
    }
}

/// A commit that reports success is durable, whatever other transactions did meanwhile: each
/// key has a commit record at the commit timestamp, and the value found through it is the one
/// that the transaction wrote last.
pub proof fn lemma_reported_commit_is_durable(
    client: ClientView,
    table: TableView,
    moves: Seq<Move>,
    commit_ts: u64,
    key: Seq<u8>,
)
    requires
        forall|k: Seq<u8>| !#[trigger] table.write.contains_key((k, commit_ts)),
        world_run(world_start(client, table), moves, commit_ts),
        world_after(world_start(client, table), moves).op.phase == CommitPhaseView::Done(Ok(true)),
        last_value(client.writes, key) is Some,
    ensures
        ({
            let end = world_after(world_start(client, table), moves).table;
            &&& durable(
                end,
                key,
                client.start_ts,
                commit_ts,
                last_value(client.writes, key)->0,
            )
            &&& commits_alone(end, client.start_ts, commit_ts)
        }),
{
    let start = world_start(client, table);
    let end = world_after(start, moves);
    lemma_coalesced(client.writes);
    lemma_distinct_keys(client.writes);
    let writes = coalesced(client.writes);
    let keys = distinct_keys(client.writes);
    assert(keys.contains(key));
    let i = choose|i: int| 0 <= i < keys.len() && keys[i] == key;
    assert(writes[i] == (key, last_value(client.writes, key)->0));
    assert forall|j: int| 0 <= j < writes.len() implies writes.contains(#[trigger] writes[j]) by {}
    assert(success_inv(start, writes, commit_ts));
    lemma_success_inv(start, moves, commit_ts);
    assert(end.op.writes.contains(writes[i]));
    let j = choose|j: int| 0 <= j < end.op.writes.len() && end.op.writes[j] == writes[i];
    assert(durable(end.table, end.op.writes[j].0, end.op.start_ts, commit_ts, end.op.writes[j].1));
}

/// What a transaction has committed is read back: after a commit that reported success, and
/// after any further requests of other transactions, a get from the commit timestamp on shows
/// the value written last, as long as the key has no later commit in the snapshot.
pub proof fn lemma_reported_commit_is_read_back(
    client: ClientView,
    table: TableView,
    moves: Seq<Move>,
    commit_ts: u64,
    requests: Seq<ActionView>,
    key: Seq<u8>,
    read_ts: u64,
)
    requires
        forall|k: Seq<u8>| !#[trigger] table.write.contains_key((k, commit_ts)),
        world_run(world_start(client, table), moves, commit_ts),
        world_after(world_start(client, table), moves).op.phase == CommitPhaseView::Done(Ok(true)),
        last_value(client.writes, key) is Some,
        forall|i: int|
            0 <= i < requests.len() ==> foreign(
                #[trigger] requests[i],
                client.start_ts,
                commit_ts,
            ),
        commit_ts <= read_ts,
        ({
            let end = world_after(world_start(client, table), moves).table;
            no_commit_between(
                resolved(applied_all(end, requests), read_ts, key),
                key,
                commit_ts,
                read_ts,
            )
        }),
    ensures
        ({
            let end = world_after(world_start(client, table), moves).table;
            snapshot(resolved(applied_all(end, requests), read_ts, key), key, read_ts)
                == last_value(client.writes, key)->0
        }),
{
    let end = world_after(world_start(client, table), moves).table;
    let value = last_value(client.writes, key)->0;
    lemma_reported_commit_is_durable(client, table, moves, commit_ts, key);
    lemma_commit_lasts(end, requests, key, client.start_ts, commit_ts, value);
    lemma_durable_value_is_read(
        applied_all(end, requests),
        key,
        client.start_ts,
        commit_ts,
        value,
        read_ts,
    );
}

// ---- A commit that fails leaves nothing behind ----

/// The store has acknowledged the commit of a key.
pub open spec fn acknowledges_commit(m: Move) -> bool {
    m matches Move::Own(Event::Commit(Ok(response))) && response.ok
}

/// Key number `from` or a later one of `keys` is `key`.
spec fn due(keys: Seq<Seq<u8>>, from: int, key: Seq<u8>) -> bool {
    exists|m: int| from <= m < keys.len() && #[trigger] keys[m] == key
}

spec fn failure_inv(w: World, key: Seq<u8>) -> bool {
    let s = w.op.start_ts;
    &&& commit_valid(w.op)
    &&& nothing_committed(w.table, s)
    &&& staged_only_under_lock(w.table, key, s)
    &&& keys_distinct(w.op.writes)
    &&& keys_of(w.op.writes).contains(key)
    &&& match w.op.phase {
        CommitPhaseView::Prewriting { index, .. } | CommitPhaseView::Waiting { index, .. } => {
            ||| keys_of(w.op.writes).take(index as int).contains(key)
            ||| w.op.locked_keys.contains(key)
            ||| released(w.table, key, s)
        },
        CommitPhaseView::AwaitingTimestamp => true,
        CommitPhaseView::Committing { index, .. } => index == 0,
        CommitPhaseView::RollingBack { keys, index, outcome } => {
            &&& outcome != Ok::<bool, Error>(true)
            &&& due(keys, index as int, key) || released(w.table, key, s)
        },
        CommitPhaseView::Done(outcome) => {
            &&& outcome != Ok::<bool, Error>(true)
            &&& released(w.table, key, s)
        },
    }
}

proof fn lemma_own_keeps_failure_inv(w: World, e: Event, key: Seq<u8>, commit_ts: u64)
    requires
        failure_inv(w, key),
        world_allows(w, Move::Own(e), commit_ts),
        !acknowledges_commit(Move::Own(e)),
    ensures
        failure_inv(world_next(w, Move::Own(e)), key),
{
    let u = world_next(w, Move::Own(e));
    let s = w.op.start_ts;
    let a = commit_pending(w.op)->0;
    let keys = keys_of(w.op.writes);
    lemma_commit_terminates(w.op, e);
    assert(forall|k: Seq<u8>, c: u64| #[trigger]
        points_to(u.table.write, k, c, s) ==> points_to(w.table.write, k, c, s));
    let place = choose|i: int| 0 <= i < keys.len() && keys[i] == key;
    match w.op.phase {
        CommitPhaseView::Prewriting { index, .. } => {
            let own = w.op.writes[index as int].0;
            if own != key {
                lemma_requests_leave_other_keys(w.table, a, key);
                assert(w.table.lock.contains_key((key, s)) == u.table.lock.contains_key((key, s)));
                assert(w.table.data.contains_key((key, s)) == u.table.data.contains_key((key, s)));
            }
            let done = keys.take(index as int);
            let more = keys.take(index as int + 1);
            if done.contains(key) {
                let j = choose|j: int| 0 <= j < done.len() && done[j] == key;
                assert(more[j] == key);
            }
            assert(more[index as int] == own);
            if let Event::Prewrite(Err(error)) = e {
                lemma_failed_prewrite_releases_locks(w.op, index, key);
                let releasing = keys_to_release(w.op, index);
                if releasing.contains(key) {
                    let m = choose|m: int| 0 <= m < releasing.len() && releasing[m] == key;
                    assert(due(releasing, 0, key));
                }
            }
        },
        CommitPhaseView::Waiting { .. } => {},
        CommitPhaseView::AwaitingTimestamp => {
            lemma_primary_first(w.op.writes, w.op.primary);
            if e matches Event::Timestamp(Ok(_)) {
                let ordered = primary_first(w.op.writes, w.op.primary);
                assert(ordered.contains(w.op.writes[place]));
                let j = choose|j: int| 0 <= j < ordered.len() && ordered[j] == w.op.writes[place];
                assert(keys_of(ordered)[j] == key);
            }
            assert(due(keys, 0, key));
        },
        CommitPhaseView::Committing { index, .. } => {
            let rest = keys.skip(index as int);
            assert(rest[place] == key);
            assert(due(rest, 0, key));
        },
        CommitPhaseView::RollingBack { keys: releasing, index, outcome } => {
            let own = releasing[index as int];
            if own == key {
                assert(released(u.table, key, s));
            } else {
                lemma_requests_leave_other_keys(w.table, a, key);
                assert(w.table.lock.contains_key((key, s)) == u.table.lock.contains_key((key, s)));
                assert(w.table.data.contains_key((key, s)) == u.table.data.contains_key((key, s)));
                if due(releasing, index as int, key) {
                    let m = choose|m: int|
                        index <= m < releasing.len() && #[trigger] releasing[m] == key;
                    assert(m != index);
                    assert(due(releasing, index as int + 1, key));
                }
            }
        },
        CommitPhaseView::Done(_) => {},
    }
}

proof fn lemma_failure_inv(w: World, moves: Seq<Move>, commit_ts: u64, key: Seq<u8>)
    requires
        failure_inv(w, key),
        world_run(w, moves, commit_ts),
        forall|i: int| 0 <= i < moves.len() ==> !acknowledges_commit(#[trigger] moves[i]),
    ensures
        failure_inv(world_after(w, moves), key),
        world_after(w, moves).op.start_ts == w.op.start_ts,
    decreases moves.len(),
{
    if moves.len() > 0 {
        let rest = moves.drop_last();
        assert forall|i: int| 0 <= i < rest.len() implies !acknowledges_commit(
            #[trigger] rest[i],
        ) by {
            assert(rest[i] == moves[i]);
        }
        lemma_failure_inv(w, rest, commit_ts, key);
        let before = world_after(w, rest);
        match moves.last() {
            Move::Own(e) => lemma_own_keeps_failure_inv(before, e, key, commit_ts),
            Move::Other(a) => lemma_others_commit_nothing(
                before.table,
                a,
                before.op.start_ts,
                key,
            ),
        }
    }
}

/// A commit that ends before the store has acknowledged the commit of any key leaves nothing
/// behind, whatever other transactions did meanwhile: it does not report success, the
/// transaction has no commit record at all, and none of its keys has a lock or data of it.
pub proof fn lemma_failed_commit_leaves_nothing(
    client: ClientView,
    table: TableView,
    moves: Seq<Move>,
    commit_ts: u64,
    key: Seq<u8>,
)
    requires
        nothing_committed(table, client.start_ts),
        last_value(client.writes, key) is Some,
        !table.data.contains_key((key, client.start_ts)),
        table.lock.contains_key((key, client.start_ts)) ==> client.locked_keys.contains(key),
        world_run(world_start(client, table), moves, commit_ts),
        forall|i: int| 0 <= i < moves.len() ==> !acknowledges_commit(#[trigger] moves[i]),
        world_after(world_start(client, table), moves).op.phase is Done,
    ensures
        ({
            let end = world_after(world_start(client, table), moves);
            &&& end.op.phase != CommitPhaseView::Done(Ok(true))
            &&& nothing_committed(end.table, client.start_ts)
            &&& released(end.table, key, client.start_ts)
        }),
{
    let start = world_start(client, table);
    lemma_coalesced(client.writes);
    lemma_distinct_keys(client.writes);
    assert(keys_of(coalesced(client.writes)).contains(key));
    assert(failure_inv(start, key));
    lemma_failure_inv(start, moves, commit_ts, key);
}

// ---- A commit that nobody disturbs succeeds ----

/// The prewrite of every write from `from` on would be granted.
spec fn grantable_from(w: World, from: int) -> bool {
    forall|j: int|
        from <= j < w.op.writes.len() ==> grantable(w, (#[trigger] w.op.writes[j]).0)
}

spec fn grantable(w: World, key: Seq<u8>) -> bool {
    prewrite_outcome(
        w.table,
        key,
        w.op.start_ts,
        primary_or_key(w.op.primary, key),
    ) is Granted
}

spec fn locked_between(w: World, from: int, to: int) -> bool {
    forall|j: int|
        from <= j < to ==> w.table.lock.contains_key(((#[trigger] w.op.writes[j]).0, w.op.start_ts))
}

pub(crate) closed spec fn undisturbed_inv(w: World) -> bool {
    &&& commit_valid(w.op)
    &&& keys_distinct(w.op.writes)
    &&& match w.op.phase {
        CommitPhaseView::Prewriting { index, .. } => {
            &&& grantable_from(w, index as int)
            &&& locked_between(w, 0, index as int)
        },
        CommitPhaseView::AwaitingTimestamp => locked_between(w, 0, w.op.writes.len() as int),
        CommitPhaseView::Committing { index, .. } => locked_between(
            w,
            index as int,
            w.op.writes.len() as int,
        ),
        CommitPhaseView::Done(outcome) => outcome == Ok::<bool, Error>(true),
        CommitPhaseView::Waiting { .. } | CommitPhaseView::RollingBack { .. } => false,
    }
}

pub(crate) proof fn lemma_undisturbed_phase(w: World)
    requires
        undisturbed_inv(w),
    ensures
        commit_valid(w.op),
        match w.op.phase {
            CommitPhaseView::Done(outcome) => outcome == Ok::<bool, Error>(true),
            CommitPhaseView::Waiting { .. } | CommitPhaseView::RollingBack { .. } => false,
            _ => true,
        },
{
}

/// How a prewrite is answered depends on the cells of its key alone.
proof fn lemma_outcome_depends_on_key(
    t: TableView,
    u: TableView,
    key: Seq<u8>,
    start_ts: u64,
    primary: Seq<u8>,
)
    requires
        same_cells(t, u, key),
    ensures
        prewrite_outcome(t, key, start_ts, primary) == prewrite_outcome(
            u,
            key,
            start_ts,
            primary,
        ),
{
    lemma_latest(t.lock, key, 0, u64::MAX);
    lemma_latest(u.lock, key, 0, u64::MAX);
    assert forall|ts: u64| #[trigger] u.lock.contains_key((key, ts)) == t.lock.contains_key(
        (key, ts),
    ) by {}
    assert forall|ts: u64| #[trigger] u.write.contains_key((key, ts)) == t.write.contains_key(
        (key, ts),
    ) by {}
    assert(lock_ts(t, key) == lock_ts(u, key));
    if let Some(ts) = lock_ts(t, key) {
        assert(t.lock.contains_key((key, ts)));
    }
    if committed_after(t, key, start_ts) {
        let c = choose|c: u64| c > start_ts && #[trigger] t.write.contains_key((key, c));
        assert(u.write.contains_key((key, c)));
    }
    if committed_after(u, key, start_ts) {
        let c = choose|c: u64| c > start_ts && #[trigger] u.write.contains_key((key, c));
        assert(t.write.contains_key((key, c)));
    }
}

pub(crate) proof fn lemma_own_keeps_undisturbed_inv(w: World, e: Event)
    requires
        undisturbed_inv(w),
        world_undisturbed(w, Move::Own(e)),
    ensures
        undisturbed_inv(world_next(w, Move::Own(e))),
        commit_rank(world_next(w, Move::Own(e)).op) < commit_rank(w.op),
        forall|k: Seq<u8>|
            keys_of(world_next(w, Move::Own(e)).op.writes).contains(k) <==> #[trigger] keys_of(
                w.op.writes,
            ).contains(k),
{
    let u = world_next(w, Move::Own(e));
    let s = w.op.start_ts;
    let a = commit_pending(w.op)->0;
    lemma_commit_terminates(w.op, e);
    match w.op.phase {
        CommitPhaseView::Prewriting { index, .. } => {
            let own = w.op.writes[index as int].0;
            assert(grantable(w, own));
            assert(u.table.lock.contains_key((own, s)));
            assert forall|j: int| 0 <= j < w.op.writes.len() && j != index implies same_cells(
                w.table,
                u.table,
                (#[trigger] w.op.writes[j]).0,
            ) by {
                assert(w.op.writes[j].0 != w.op.writes[index as int].0);
                lemma_requests_leave_other_keys(w.table, a, w.op.writes[j].0);
            }
            assert forall|j: int| index < j < w.op.writes.len() implies grantable(
                u,
                (#[trigger] w.op.writes[j]).0,
            ) by {
                let k = w.op.writes[j].0;
                assert(grantable(w, k));
                lemma_outcome_depends_on_key(
                    w.table,
                    u.table,
                    k,
                    s,
                    primary_or_key(w.op.primary, k),
                );
            }
            assert forall|j: int| 0 <= j <= index implies u.table.lock.contains_key(
                ((#[trigger] w.op.writes[j]).0, s),
            ) by {
                if j < index {
                    assert(w.table.lock.contains_key((w.op.writes[j].0, s)));
                }
            }
        },
        CommitPhaseView::AwaitingTimestamp => {
            lemma_primary_first(w.op.writes, w.op.primary);
            let ordered = primary_first(w.op.writes, w.op.primary);
            lemma_same_writes_same_keys(w.op.writes, ordered);
            assert forall|j: int| 0 <= j < ordered.len() implies u.table.lock.contains_key(
                ((#[trigger] ordered[j]).0, s),
            ) by {
                assert(w.op.writes.contains(ordered[j]));
            }
        },
        CommitPhaseView::Committing { index, .. } => {
            assert(w.table.lock.contains_key((w.op.writes[index as int].0, s)));
            assert forall|j: int| index < j < w.op.writes.len() implies u.table.lock.contains_key(
                ((#[trigger] w.op.writes[j]).0, s),
            ) by {
                assert(w.op.writes[j].0 != w.op.writes[index as int].0);
                assert(w.table.lock.contains_key((w.op.writes[j].0, s)));
            }
        },
        _ => {},
    }
}

/// Lists with the same writes have the same keys.
pub(crate) proof fn lemma_same_writes_same_keys(a: Seq<WriteView>, b: Seq<WriteView>)
    requires
        forall|i: int| 0 <= i < a.len() ==> b.contains(#[trigger] a[i]),
        forall|i: int| 0 <= i < b.len() ==> a.contains(#[trigger] b[i]),
    ensures
        forall|k: Seq<u8>| keys_of(b).contains(k) <==> #[trigger] keys_of(a).contains(k),
{
    assert forall|k: Seq<u8>| keys_of(b).contains(k) <==> #[trigger] keys_of(a).contains(k) by {
        if keys_of(a).contains(k) {
            let i = choose|i: int| 0 <= i < a.len() && keys_of(a)[i] == k;
            assert(b.contains(a[i]));
            let j = choose|j: int| 0 <= j < b.len() && b[j] == a[i];
            assert(keys_of(b)[j] == k);
        }
        if keys_of(b).contains(k) {
            let i = choose|i: int| 0 <= i < b.len() && keys_of(b)[i] == k;
            assert(a.contains(b[i]));
            let j = choose|j: int| 0 <= j < a.len() && a[j] == b[i];
            assert(keys_of(a)[j] == k);
        }
    }
}

pub(crate) proof fn lemma_other_keeps_undisturbed_inv(w: World, a: ActionView)
    requires
        undisturbed_inv(w),
        keeps_off(w.table, a, keys_of(w.op.writes)),
    ensures
        undisturbed_inv(world_next(w, Move::Other(a))),
{
    let u = world_next(w, Move::Other(a));
    let s = w.op.start_ts;
    assert forall|j: int| 0 <= j < w.op.writes.len() implies same_cells(
        w.table,
        u.table,
        (#[trigger] w.op.writes[j]).0,
    ) by {
        assert(keys_of(w.op.writes)[j] == w.op.writes[j].0);
        assert(keys_of(w.op.writes).contains(w.op.writes[j].0));
        lemma_requests_leave_other_keys(w.table, a, w.op.writes[j].0);
    }
    assert forall|j: int|
        0 <= j < w.op.writes.len() && w.table.lock.contains_key(
            ((#[trigger] w.op.writes[j]).0, s),
        ) implies u.table.lock.contains_key((w.op.writes[j].0, s)) by {
        assert(same_cells(w.table, u.table, w.op.writes[j].0));
    }
    assert forall|j: int|
        0 <= j < w.op.writes.len() && grantable(w, (#[trigger] w.op.writes[j]).0) implies grantable(
        u,
        w.op.writes[j].0,
    ) by {
        let k = w.op.writes[j].0;
        assert(same_cells(w.table, u.table, k));
        lemma_outcome_depends_on_key(w.table, u.table, k, s, primary_or_key(w.op.primary, k));
    }
}

proof fn lemma_undisturbed_inv(w: World, moves: Seq<Move>)
    requires
        undisturbed_inv(w),
        undisturbed_run(w, moves),
    ensures
        undisturbed_inv(world_after(w, moves)),
        commit_rank(world_after(w, moves).op) + own_moves(moves) <= commit_rank(w.op),
    decreases moves.len(),
{
    if moves.len() > 0 {
        let rest = moves.drop_last();
        lemma_undisturbed_inv(w, rest);
        let before = world_after(w, rest);
        match moves.last() {
            Move::Own(e) => lemma_own_keeps_undisturbed_inv(before, e),
            Move::Other(a) => lemma_other_keeps_undisturbed_inv(before, a),
        }
    }
}

/// `a` touches none of `keys`.
pub open spec fn keeps_off(t: TableView, a: ActionView, keys: Seq<Seq<u8>>) -> bool {
    forall|k: Seq<u8>| #[trigger] keys.contains(k) ==> !may_touch(t, a, k)
}

/// The commit hears what the store answers, the oracle does not fail, and other transactions
/// touch none of the keys of the commit.
pub open spec fn world_undisturbed(w: World, m: Move) -> bool {
    match m {
        Move::Own(e) => {
            &&& commit_pending(w.op) matches Some(a)
            &&& replies(w.table, a, e)
            &&& e is Timestamp ==> e->Timestamp_0 is Ok
        },
        Move::Other(a) => keeps_off(w.table, a, keys_of(w.op.writes)),
    }
}

/// Every move of the series leaves the commit undisturbed.
pub open spec fn undisturbed_run(w: World, moves: Seq<Move>) -> bool
    decreases moves.len(),
{
    moves.len() == 0 || {
        &&& undisturbed_run(w, moves.drop_last())
        &&& world_undisturbed(world_after(w, moves.drop_last()), moves.last())
    }
}

/// The number of answers that the commit gets in a series of moves.
pub open spec fn own_moves(moves: Seq<Move>) -> nat
    decreases moves.len(),
{
    if moves.len() == 0 {
        0
    } else {
        own_moves(moves.drop_last()) + if moves.last() is Own {
            1nat
        } else {
            0nat
        }
    }
}

/// The key can be prewritten by `client`: it is not locked, or only by an expired lock, and has
/// no commit after the start of the transaction; or the transaction holds its pessimistic lock.
pub open spec fn available(client: ClientView, table: TableView, key: Seq<u8>) -> bool {
    ||| !blocked(table, key, client.start_ts) && !committed_after(table, key, client.start_ts)
    ||| owns_pessimistic_lock(
        table,
        key,
        client.start_ts,
        primary_or_key(client.commit_primary(), key),
    )
}

/// A commit that nobody disturbs succeeds. Where all its keys are available, and other
/// transactions touch other keys only, in whatever order the store serves them all, nothing
/// makes the commit wait, roll back or fail. It is over after a bounded number of answers, and
/// it then reports success. A transaction without writes and without locks is over at once.
pub proof fn lemma_undisturbed_commit_succeeds(
    client: ClientView,
    table: TableView,
    moves: Seq<Move>,
)
    requires
        !client.aborted,
        forall|k: Seq<u8>|
            #[trigger] last_value(client.writes, k) is Some ==> available(client, table, k),
        client.writes.len() == 0 ==> client.locked_keys.len() == 0,
        undisturbed_run(world_start(client, table), moves),
    ensures
        world_after(world_start(client, table), moves).op.phase matches CommitPhaseView::Done(
            outcome,
        ) ==> outcome == Ok::<bool, Error>(true),
        !(world_after(world_start(client, table), moves).op.phase is Waiting),
        !(world_after(world_start(client, table), moves).op.phase is RollingBack),
        own_moves(moves) <= commit_rank(world_start(client, table).op),
        client.writes.len() == 0 ==> world_start(client, table).op.phase == CommitPhaseView::Done(
            Ok(true),
        ),
{
    let start = world_start(client, table);
    lemma_undisturbed_start(client, table);
    lemma_undisturbed_inv(start, moves);
    lemma_commit_rank(world_after(start, moves).op);
}

pub(crate) proof fn lemma_undisturbed_start(client: ClientView, table: TableView)
    requires
        !client.aborted,
        forall|k: Seq<u8>|
            #[trigger] last_value(client.writes, k) is Some ==> available(client, table, k),
        client.writes.len() == 0 ==> client.locked_keys.len() == 0,
    ensures
        undisturbed_inv(world_start(client, table)),
{
    let start = world_start(client, table);
    lemma_coalesced(client.writes);
    lemma_distinct_keys(client.writes);
    let writes = coalesced(client.writes);
    assert forall|j: int| 0 <= j < writes.len() implies grantable(start, (#[trigger] writes[j]).0) by {
        let k = writes[j].0;
        assert(distinct_keys(client.writes)[j] == k);
        assert(distinct_keys(client.writes).contains(k));
        assert(last_value(client.writes, k) is Some);
    }
}

// ---- A failed pessimistic set leaves no lock behind ----

/// The acquisition of a lock in progress, its client, and the table that it works on.
pub struct LockWorld {
    pub op: LockView,
    pub client: ClientView,
    pub table: TableView,
}

/// A pessimistic `set` of `key` by `client` that has to lock it first, on `table`.
pub open spec fn lock_world_start(
    client: ClientView,
    key: Seq<u8>,
    value: Seq<u8>,
    table: TableView,
) -> LockWorld {
    LockWorld {
        op: lock_start(client, key, Some(value), LockPhaseView::AwaitingTimestamp),
        client,
        table,
    }
}

/// The world after a move.
pub open spec fn lock_world_next(w: LockWorld, m: Move) -> LockWorld {
    match m {
        Move::Own(e) => {
            let (op, client) = lock_next(w.op, w.client, e);
            LockWorld {
                op,
                client,
                table: match lock_pending(w.op) {
                    Some(a) => applied(w.table, a),
                    None => w.table,
                },
            }
        },
        Move::Other(a) => LockWorld { table: applied(w.table, a), ..w },
    }
}

/// The acquisition hears what the store answers, and no other transaction carries the start
/// timestamp of this one.
pub open spec fn lock_world_allows(w: LockWorld, m: Move) -> bool {
    match m {
        Move::Own(e) => lock_pending(w.op) matches Some(a) && replies(w.table, a, e),
        Move::Other(a) => of_another(a, w.op.start_ts),
    }
}

/// The world after a series of moves.
pub open spec fn lock_world_after(w: LockWorld, moves: Seq<Move>) -> LockWorld
    decreases moves.len(),
{
    if moves.len() == 0 {
        w
    } else {
        lock_world_next(lock_world_after(w, moves.drop_last()), moves.last())
    }
}

/// Every move of the series is allowed where it is made.
pub open spec fn lock_world_run(w: LockWorld, moves: Seq<Move>) -> bool
    decreases moves.len(),
{
    moves.len() == 0 || {
        &&& lock_world_run(w, moves.drop_last())
        &&& lock_world_allows(lock_world_after(w, moves.drop_last()), moves.last())
    }
}

spec fn abort_inv(w: LockWorld, start: LockWorld) -> bool {
    let s = start.client.start_ts;
    let held = start.client.locked_keys;
    &&& w.op.start_ts == s
    &&& w.op.value is Some
    &&& nothing_committed(start.table, s) ==> nothing_committed(w.table, s)
    &&& match w.op.phase {
        LockPhaseView::AwaitingTimestamp
        | LockPhaseView::Locking { .. }
        | LockPhaseView::Waiting { .. } => w.client == start.client,
        LockPhaseView::Aborting { keys, index, .. } => {
            &&& w.client == start.client.abort()
            &&& keys == held
            &&& index < held.len()
            &&& forall|m: int|
                0 <= m < index ==> !w.table.lock.contains_key((#[trigger] held[m], s))
        },
        LockPhaseView::Done(Ok(_)) => true,
        LockPhaseView::Done(Err(_)) => {
            &&& w.client == start.client.abort()
            &&& forall|m: int|
                0 <= m < held.len() ==> !w.table.lock.contains_key((#[trigger] held[m], s))
        },
    }
}

/// The data of the transaction under `key` is there only under its lock, if it was so before.
spec fn abort_data_inv(w: LockWorld, start: LockWorld, key: Seq<u8>) -> bool {
    let s = start.client.start_ts;
    nothing_committed(start.table, s) && staged_only_under_lock(start.table, key, s)
        ==> staged_only_under_lock(w.table, key, s)
}

proof fn lemma_move_keeps_abort_inv(w: LockWorld, m: Move, start: LockWorld, key: Seq<u8>)
    requires
        abort_inv(w, start),
        abort_data_inv(w, start, key),
        lock_world_allows(w, m),
    ensures
        abort_inv(lock_world_next(w, m), start),
        abort_data_inv(lock_world_next(w, m), start, key),
{
    let u = lock_world_next(w, m);
    let s = start.client.start_ts;
    let held = start.client.locked_keys;
    match m {
        Move::Own(e) => {
            let a = lock_pending(w.op)->0;
            assert(u.table.write == w.table.write);
            assert(forall|k: Seq<u8>, c: u64| #[trigger]
                points_to(u.table.write, k, c, s) ==> points_to(w.table.write, k, c, s));
            if let LockPhaseView::Aborting { index, .. } = w.op.phase {
                assert(!u.table.lock.contains_key((held[index as int], s)));
            }
        },
        Move::Other(a) => {
            if nothing_committed(w.table, s) {
                lemma_others_commit_nothing(w.table, a, s, key);
            }
            assert forall|i: int|
                0 <= i < held.len() && !w.table.lock.contains_key((#[trigger] held[i], s)) implies
                !u.table.lock.contains_key((held[i], s)) by {
                lemma_others_take_no_lock(w.table, a, s, held[i]);
            }
        },
    }
}

proof fn lemma_abort_inv(start: LockWorld, moves: Seq<Move>, key: Seq<u8>)
    requires
        abort_inv(start, start),
        lock_world_run(start, moves),
    ensures
        abort_inv(lock_world_after(start, moves), start),
        abort_data_inv(lock_world_after(start, moves), start, key),
    decreases moves.len(),
{
    if moves.len() > 0 {
        lemma_abort_inv(start, moves.drop_last(), key);
        lemma_move_keeps_abort_inv(
            lock_world_after(start, moves.drop_last()),
            moves.last(),
            start,
            key,
        );
    }
}

/// A pessimistic `set` that ends in an error leaves no lock behind, whatever other transactions
/// did meanwhile: the transaction is aborted, and none of the keys that it had locked has a lock
/// of it. If it had committed nothing before, it has committed nothing, and none of the keys
/// that it had locked has data of it, either.
pub proof fn lemma_failed_set_leaves_no_lock(
    client: ClientView,
    key: Seq<u8>,
    value: Seq<u8>,
    table: TableView,
    moves: Seq<Move>,
    held: Seq<u8>,
)
    requires
        lock_world_run(lock_world_start(client, key, value, table), moves),
        lock_world_after(
            lock_world_start(client, key, value, table),
            moves,
        ).op.phase matches LockPhaseView::Done(outcome) && outcome is Err,
        client.locked_keys.contains(held),
    ensures
        ({
            let end = lock_world_after(lock_world_start(client, key, value, table), moves);
            &&& end.client == client.abort()
            &&& !end.table.lock.contains_key((held, client.start_ts))
            &&& nothing_committed(table, client.start_ts) ==> {
                &&& nothing_committed(end.table, client.start_ts)
                &&& staged_only_under_lock(table, held, client.start_ts) ==> released(
                    end.table,
                    held,
                    client.start_ts,
                )
            }
        }),
{
    let start = lock_world_start(client, key, value, table);
    lemma_abort_inv(start, moves, held);
    let m = choose|m: int| 0 <= m < client.locked_keys.len() && client.locked_keys[m] == held;
    assert(client.locked_keys[m] == held);
}

} // verus!
