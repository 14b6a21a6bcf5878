//! What holds of the calls of a client that run against the store.

use vstd::prelude::*;

use crate::action::{ActionView, Event};
use crate::buffer::{
    distinct_keys, last_value, lemma_coalesced, lemma_distinct_keys, lemma_read_your_writes,
};
use crate::cell::ValueView;
use crate::client::{ClientView, TxnMode};
use crate::commit_op::CommitPhaseView;
use crate::course_laws::{acquisition, lemma_commit_without_writes, succeeded};
use crate::error::{Error, ErrorKind};
use crate::get_op::{get_next, get_pending, GetPhaseView, GetView};
use crate::lock_op::{lock_pending, LockPhaseView};
use crate::protocol::{applied, replies};
use crate::request_laws::{
    lemma_get, lemma_own_cell, lemma_pessimistic_lock, lock_cell, shows,
};
use crate::store_laws::{
    lemma_lock_ts, lemma_requests_keep_table_well_formed, lemma_requests_leave_other_keys,
    same_cells, well_formed,
};
use crate::system_laws::{
    available, keeps_off, lemma_undisturbed_commit_succeeds, lock_world_after, lock_world_allows,
    lock_world_next, lock_world_run, undisturbed_run, world_after, world_start, LockWorld, Move,
};
use crate::table::TableView;
use crate::txn_laws::{commit_after, lemma_clients_stay_valid};

verus! {

// ---- A get against the store ----

/// A get in progress and the table that it reads.
pub struct GetWorld {
    pub op: GetView,
    pub table: TableView,
}

/// The world after a move.
pub open spec fn get_world_next(w: GetWorld, m: Move) -> GetWorld {
    match m {
        Move::Own(e) => GetWorld {
            op: get_next(w.op, e),
            table: match get_pending(w.op) {
                Some(a) => applied(w.table, a),
                None => w.table,
            },
        },
        Move::Other(a) => GetWorld { table: applied(w.table, a), ..w },
    }
}

/// The world after a series of moves.
pub open spec fn get_world_after(w: GetWorld, moves: Seq<Move>) -> GetWorld
    decreases moves.len(),
{
    if moves.len() == 0 {
        w
    } else {
        get_world_next(get_world_after(w, moves.drop_last()), moves.last())
    }
}

/// The get hears what the store answers; others may ask for anything.
pub open spec fn get_world_run(w: GetWorld, moves: Seq<Move>) -> bool
    decreases moves.len(),
{
    moves.len() == 0 || {
        &&& get_world_run(w, moves.drop_last())
        &&& moves.last() matches Move::Own(e) ==> {
            let before = get_world_after(w, moves.drop_last());
            get_pending(before.op) matches Some(a) && replies(before.table, a, e)
        }
    }
}

proof fn lemma_get_world(start: GetWorld, moves: Seq<Move>)
    requires
        well_formed(start.table),
    ensures
        well_formed(get_world_after(start, moves).table),
        get_world_after(start, moves).op.key == start.op.key,
        get_world_after(start, moves).op.start_ts == start.op.start_ts,
    decreases moves.len(),
{
    if moves.len() > 0 {
        let before = get_world_after(start, moves.drop_last());
        lemma_get_world(start, moves.drop_last());
        match moves.last() {
            Move::Own(e) => {
                if let Some(a) = get_pending(before.op) {
                    lemma_requests_keep_table_well_formed(before.table, a);
                }
            },
            Move::Other(a) => lemma_requests_keep_table_well_formed(before.table, a),
        }
    }
}

/// A get of a key that the transaction has not written reads its snapshot. When the answer of
/// the store ends the get, a value that it reports is the one that the commits of the key up to
/// the start of the transaction show, byte for byte, in the table that the store answered from,
/// and the key is not locked there; an error says that the key is locked, and it is.
pub proof fn lemma_get_reads_the_snapshot(
    client: ClientView,
    key: Seq<u8>,
    table: TableView,
    moves: Seq<Move>,
)
    requires
        well_formed(table),
        last_value(client.writes, key) is None,
        moves.len() > 0,
        get_world_run(GetWorld { op: client.get_op(key), table }, moves),
        get_pending(
            get_world_after(GetWorld { op: client.get_op(key), table }, moves.drop_last()).op,
        ) is Some,
    ensures
        ({
            let end = get_world_after(GetWorld { op: client.get_op(key), table }, moves);
            end.op.phase matches GetPhaseView::Done(outcome) ==> match outcome {
                Ok(value) => {
                    &&& shows(end.table, key, client.start_ts, value)
                    &&& forall|held: u64| !#[trigger] end.table.lock.contains_key((key, held))
                },
                Err(e) => {
                    &&& exists|held: u64| #[trigger] end.table.lock.contains_key((key, held))
                    &&& e.kind == ErrorKind::Other
                    &&& e.message@ == "key is locked"@
                },
            }
        }),
{
    let start = GetWorld { op: client.get_op(key), table };
    let before = get_world_after(start, moves.drop_last());
    let end = get_world_after(start, moves);
    lemma_get_world(start, moves.drop_last());
    if let Move::Own(e) = moves.last() {
        let a = get_pending(before.op)->0;
        assert(replies(before.table, a, e));
        if end.op.phase is Done {
            assert(a == ActionView::Get { key, start_ts: client.start_ts });
            let reply = e->Get_0;
            lemma_get(before.table, key, client.start_ts, reply);
            assert(end.table == applied(before.table, a));
        }
    }
}

// ---- A lock acquisition against the store ----

proof fn lemma_lock_world(start: LockWorld, moves: Seq<Move>)
    requires
        well_formed(start.table),
    ensures
        well_formed(lock_world_after(start, moves).table),
        lock_world_after(start, moves).op.key == start.op.key,
        lock_world_after(start, moves).op.start_ts == start.op.start_ts,
        lock_world_after(start, moves).op.primary == start.op.primary,
        lock_world_after(start, moves).op.value == start.op.value,
    decreases moves.len(),
{
    if moves.len() > 0 {
        let before = lock_world_after(start, moves.drop_last());
        lemma_lock_world(start, moves.drop_last());
        match moves.last() {
            Move::Own(e) => {
                if let Some(a) = lock_pending(before.op) {
                    lemma_requests_keep_table_well_formed(before.table, a);
                }
            },
            Move::Other(a) => lemma_requests_keep_table_well_formed(before.table, a),
        }
    }
}

/// The primary that a lock request names, where an empty one stands for the key itself.
pub open spec fn names(primary: Seq<u8>, key: Seq<u8>) -> Seq<u8> {
    if primary.len() == 0 {
        key
    } else {
        primary
    }
}

/// The first key that a client has locked, or `key` where it has locked none.
pub open spec fn first_locked(client: ClientView, key: Seq<u8>) -> Seq<u8> {
    if client.locked_keys.len() == 0 {
        key
    } else {
        client.locked_keys[0]
    }
}

/// When `set` or `lock_for_update` reports success, the store has granted the lock: at that
/// moment the key is locked in the name of this transaction and of no other, under the first
/// key that the transaction has locked, and the client counts the key among its locks.
pub proof fn lemma_success_means_locked(
    client: ClientView,
    key: Seq<u8>,
    value: Option<Seq<u8>>,
    table: TableView,
    moves: Seq<Move>,
)
    requires
        client.valid(),
        client.mode == TxnMode::Pessimistic,
        !client.locked_keys.contains(key),
        well_formed(table),
        moves.len() > 0,
        ({
            let start = LockWorld { op: acquisition(client, key, value), client, table };
            &&& lock_world_run(start, moves)
            &&& lock_pending(lock_world_after(start, moves.drop_last()).op) is Some
            &&& succeeded(lock_world_after(start, moves).op)
        }),
    ensures
        ({
            let start = LockWorld { op: acquisition(client, key, value), client, table };
            let end = lock_world_after(start, moves);
            &&& moves.last() matches Move::Own(Event::PessimisticLock(Ok(_)))
            &&& forall|held: u64| #[trigger]
                end.table.lock.contains_key((key, held)) <==> held == client.start_ts
            &&& end.table.lock[(key, client.start_ts)] matches ValueView::Bytes(lock)
                && lock.skip(1) == names(first_locked(client, key), key)
        }),
{
    let start = LockWorld { op: acquisition(client, key, value), client, table };
    let before = lock_world_after(start, moves.drop_last());
    let end = lock_world_after(start, moves);
    lemma_lock_world(start, moves.drop_last());
    lemma_lock_world(start, moves);
    lemma_lock_ts(end.table, key);
    let named = names(first_locked(client, key), key);
    assert(lock_world_allows(before, moves.last()));
    if let Move::Own(Event::PessimisticLock(reply)) = moves.last() {
        if let Some(
            ActionView::PessimisticLock { key: k, start_ts, for_update_ts, primary },
        ) = lock_pending(before.op) {
            lemma_pessimistic_lock(before.table, k, start_ts, for_update_ts, primary, reply);
            assert(end.table.lock.contains_key((key, client.start_ts)));
            assert((seq![1u8] + named).skip(1) =~= named);
        }
    }
}

// ---- A pessimistic transaction that nobody disturbs ----

/// A transaction that holds the pessimistic lock on every key that it has written, each as its
/// lock request left it, under the first key that was locked, commits if nobody touches these
/// keys: nothing makes the commit wait, roll back or fail.
pub proof fn lemma_locked_transaction_commits(
    client: ClientView,
    table: TableView,
    moves: Seq<Move>,
)
    requires
        client.valid(),
        !client.aborted,
        client.writes.len() > 0,
        well_formed(table),
        forall|k: Seq<u8>| #[trigger]
            last_value(client.writes, k) is Some ==> {
                &&& client.locked_keys.contains(k)
                &&& table.lock.contains_key((k, client.start_ts))
                &&& table.lock[(k, client.start_ts)] == lock_cell(
                    1,
                    names(client.locked_keys[0], k),
                )
            },
        undisturbed_run(world_start(client, table), moves),
    ensures
        world_after(world_start(client, table), moves).op.phase matches CommitPhaseView::Done(
            outcome,
        ) ==> outcome == Ok::<bool, Error>(true),
        !(world_after(world_start(client, table), moves).op.phase is Waiting),
        !(world_after(world_start(client, table), moves).op.phase is RollingBack),
{
    lemma_coalesced(client.writes);
    lemma_distinct_keys(client.writes);
    let first = client.writes[0].0;
    assert(distinct_keys(client.writes).contains(first)) by {
        assert(distinct_keys(client.writes)[0] == first);
    }
    assert(last_value(client.writes, first) is Some);
    assert forall|k: Seq<u8>| #[trigger] last_value(client.writes, k) is Some implies available(
        client,
        table,
        k,
    ) by {
        lemma_lock_ts(table, k);
        lemma_own_cell(table, k, client.start_ts, names(client.locked_keys[0], k));
    }
    lemma_undisturbed_commit_succeeds(client, table, moves);
}

/// A call of a pessimistic client, with the moves until it is over.
pub enum Call {
    Write { key: Seq<u8>, value: Seq<u8>, moves: Seq<Move> },
    Lock { key: Seq<u8>, moves: Seq<Move> },
}

/// A client and the table that it works on.
pub struct Session {
    pub client: ClientView,
    pub table: TableView,
}

/// The key that a call locks.
pub open spec fn call_key(call: Call) -> Seq<u8> {
    match call {
        Call::Write { key, .. } => key,
        Call::Lock { key, .. } => key,
    }
}

/// The moves of a call.
pub open spec fn call_moves(call: Call) -> Seq<Move> {
    match call {
        Call::Write { moves, .. } => moves,
        Call::Lock { moves, .. } => moves,
    }
}

/// The world in which a call starts.
pub open spec fn call_start(s: Session, call: Call) -> LockWorld {
    match call {
        Call::Write { key, value, .. } => {
            let (op, client) = s.client.set_op(key, value);
            LockWorld { op, client, table: s.table }
        },
        Call::Lock { key, .. } => LockWorld {
            op: s.client.lock_op(key),
            client: s.client,
            table: s.table,
        },
    }
}

/// The world in which a call ends.
pub open spec fn call_end(s: Session, call: Call) -> LockWorld {
    lock_world_after(call_start(s, call), call_moves(call))
}

/// The client hears what the store answers, the oracle gives it timestamps from its start on,
/// and others touch none of `keys`.
pub open spec fn call_move_allowed(w: LockWorld, m: Move, keys: Seq<Seq<u8>>) -> bool {
    match m {
        Move::Own(e) => {
            &&& lock_pending(w.op) matches Some(a)
            &&& replies(w.table, a, e)
            &&& e matches Event::Timestamp(reply) ==> (reply matches Ok(ts) && ts >= w.op.start_ts)
        },
        Move::Other(a) => keeps_off(w.table, a, keys),
    }
}

/// Every move of the series is allowed where it is made.
pub open spec fn call_moves_allowed(w: LockWorld, moves: Seq<Move>, keys: Seq<Seq<u8>>) -> bool
    decreases moves.len(),
{
    moves.len() == 0 || {
        &&& call_moves_allowed(w, moves.drop_last(), keys)
        &&& call_move_allowed(lock_world_after(w, moves.drop_last()), moves.last(), keys)
    }
}

/// The session after a series of calls.
pub open spec fn session_after(s: Session, calls: Seq<Call>) -> Session
    decreases calls.len(),
{
    if calls.len() == 0 {
        s
    } else {
        let end = call_end(session_after(s, calls.drop_last()), calls.last());
        Session { client: end.client, table: end.table }
    }
}

/// Every call is about one of `keys` and runs until it is over.
pub open spec fn session_runs(s: Session, calls: Seq<Call>, keys: Seq<Seq<u8>>) -> bool
    decreases calls.len(),
{
    calls.len() == 0 || {
        let before = session_after(s, calls.drop_last());
        &&& session_runs(s, calls.drop_last(), keys)
        &&& keys.contains(call_key(calls.last()))
        &&& call_moves_allowed(call_start(before, calls.last()), call_moves(calls.last()), keys)
        &&& call_end(before, calls.last()).op.phase is Done
    }
}

/// The value of the last `set` of `key`, if there is one.
pub open spec fn last_set(calls: Seq<Call>, key: Seq<u8>) -> Option<Seq<u8>>
    decreases calls.len(),
{
    if calls.len() == 0 {
        None
    } else {
        match calls.last() {
            Call::Write { key: k, value, .. } if k == key => Some(value),
            _ => last_set(calls.drop_last(), key),
        }
    }
}

/// `key` is not locked and has no commit after `ts`.
pub open spec fn is_free(t: TableView, key: Seq<u8>, ts: u64) -> bool {
    &&& forall|held: u64| !#[trigger] t.lock.contains_key((key, held))
    &&& forall|c: u64| #[trigger] t.write.contains_key((key, c)) ==> c <= ts
}

/// Of `keys`, those that the client has locked are locked in its name, under the first of them,
/// and the others are free.
spec fn locks_stand(t: TableView, client: ClientView, keys: Seq<Seq<u8>>) -> bool {
    let ts = client.start_ts;
    forall|k: Seq<u8>| #[trigger]
        keys.contains(k) ==> {
            &&& forall|c: u64| #[trigger] t.write.contains_key((k, c)) ==> c <= ts
            &&& client.locked_keys.contains(k) ==> {
                &&& t.lock.contains_key((k, ts))
                &&& t.lock[(k, ts)] == lock_cell(1, names(client.locked_keys[0], k))
            }
            &&& !client.locked_keys.contains(k) ==> forall|held: u64|
                !#[trigger] t.lock.contains_key((k, held))
        }
}

spec fn session_inv(s: Session, keys: Seq<Seq<u8>>, start_ts: u64) -> bool {
    let client = s.client;
    &&& client.valid() && !client.aborted && client.mode == TxnMode::Pessimistic
    &&& client.start_ts == start_ts
    &&& well_formed(s.table)
    &&& locks_stand(s.table, client, keys)
    &&& forall|k: Seq<u8>| #[trigger] client.locked_keys.contains(k) ==> keys.contains(k)
    &&& forall|k: Seq<u8>| #[trigger]
        last_value(client.writes, k) is Some ==> client.locked_keys.contains(k)
}

/// A request that keeps off `keys` leaves the locks as they stand.
proof fn lemma_others_leave_locks(
    t: TableView,
    a: ActionView,
    client: ClientView,
    keys: Seq<Seq<u8>>,
)
    requires
        locks_stand(t, client, keys),
        keeps_off(t, a, keys),
    ensures
        locks_stand(applied(t, a), client, keys),
{
    let u = applied(t, a);
    assert forall|k: Seq<u8>| #[trigger] keys.contains(k) implies same_cells(t, u, k) by {
        lemma_requests_leave_other_keys(t, a, k);
    }
    let ts = client.start_ts;
    assert forall|k: Seq<u8>| #[trigger] keys.contains(k) implies {
        &&& forall|c: u64| #[trigger] u.write.contains_key((k, c)) ==> c <= ts
        &&& client.locked_keys.contains(k) ==> {
            &&& u.lock.contains_key((k, ts))
            &&& u.lock[(k, ts)] == lock_cell(1, names(client.locked_keys[0], k))
        }
        &&& !client.locked_keys.contains(k) ==> forall|held: u64|
            !#[trigger] u.lock.contains_key((k, held))
    } by {
        assert(same_cells(t, u, k));
        assert forall|c: u64| #[trigger] u.write.contains_key((k, c)) implies c <= ts by {
            assert(t.write.contains_key((k, c)));
        }
        if !client.locked_keys.contains(k) {
            assert forall|held: u64| !#[trigger] u.lock.contains_key((k, held)) by {
                assert(!t.lock.contains_key((k, held)));
            }
        }
    }
}

/// How far an undisturbed acquisition of `key` has come.
spec fn call_inv(w: LockWorld, s: Session, key: Seq<u8>, keys: Seq<Seq<u8>>, start_ts: u64) -> bool {
    &&& well_formed(w.table)
    &&& match w.op.phase {
        LockPhaseView::AwaitingTimestamp => {
            w.client == s.client && locks_stand(w.table, s.client, keys)
        },
        LockPhaseView::Locking { for_update_ts, attempt } => {
            &&& w.client == s.client && locks_stand(w.table, s.client, keys)
            &&& for_update_ts >= start_ts
        },
        LockPhaseView::Done(outcome) => {
            &&& outcome is Ok
            &&& w.client.valid()
            &&& w.client.mode == s.client.mode && w.client.start_ts == start_ts
            &&& !w.client.aborted
            &&& w.client.locked_keys == s.client.locked_keys.push(key)
            &&& w.client.writes == match w.op.value {
                Some(value) => s.client.writes.push((key, value)),
                None => s.client.writes,
            }
            &&& locks_stand(w.table, w.client, keys)
        },
        _ => false,
    }
}

proof fn lemma_move_keeps_call_inv(
    w: LockWorld,
    m: Move,
    s: Session,
    key: Seq<u8>,
    keys: Seq<Seq<u8>>,
    start_ts: u64,
)
    requires
        session_inv(s, keys, start_ts),
        keys.contains(key),
        !s.client.locked_keys.contains(key),
        w.op.key == key,
        w.op.start_ts == start_ts,
        w.op.primary == first_locked(s.client, key),
        call_inv(w, s, key, keys, start_ts),
        call_move_allowed(w, m, keys),
    ensures
        call_inv(lock_world_next(w, m), s, key, keys, start_ts),
{
    let u = lock_world_next(w, m);
    match m {
        Move::Other(a) => {
            lemma_requests_keep_table_well_formed(w.table, a);
            lemma_others_leave_locks(w.table, a, w.client, keys);
        },
        Move::Own(e) => {
            let a = lock_pending(w.op)->0;
            lemma_requests_keep_table_well_formed(w.table, a);
            if let LockPhaseView::Locking { for_update_ts, attempt } = w.op.phase {
                if let Event::PessimisticLock(reply) = e {
                    let client = s.client;
                    let named = names(first_locked(client, key), key);
                    lemma_pessimistic_lock(
                        w.table,
                        key,
                        start_ts,
                        for_update_ts,
                        w.op.primary,
                        reply,
                    );
                    assert(reply is Ok);
                    lemma_clients_stay_valid(client, w.op, e, key, key);
                    assert(u.client.locked_keys == client.locked_keys.push(key));
                    assert(u.client.locked_keys[0] == first_locked(client, key));
                    assert forall|k: Seq<u8>| #[trigger]
                        u.client.locked_keys.contains(k) <==> k == key
                        || client.locked_keys.contains(k) by {
                        let more = client.locked_keys.push(key);
                        assert(more[client.locked_keys.len() as int] == key);
                        if client.locked_keys.contains(k) {
                            let i = choose|i: int|
                                0 <= i < client.locked_keys.len() && client.locked_keys[i] == k;
                            assert(more[i] == k);
                        }
                    }
                    assert forall|k: Seq<u8>, held: u64| k != key implies #[trigger]
                        u.table.lock.contains_key((k, held)) == w.table.lock.contains_key((k, held))
                        && (w.table.lock.contains_key((k, held)) ==> u.table.lock[(k, held)]
                        == w.table.lock[(k, held)]) by {}
                }
            }
        },
    }
}

proof fn lemma_call_inv(
    start: LockWorld,
    moves: Seq<Move>,
    s: Session,
    key: Seq<u8>,
    keys: Seq<Seq<u8>>,
    start_ts: u64,
)
    requires
        session_inv(s, keys, start_ts),
        keys.contains(key),
        !s.client.locked_keys.contains(key),
        start.op.key == key,
        start.op.start_ts == start_ts,
        start.op.primary == first_locked(s.client, key),
        call_inv(start, s, key, keys, start_ts),
        call_moves_allowed(start, moves, keys),
    ensures
        call_inv(lock_world_after(start, moves), s, key, keys, start_ts),
        lock_world_after(start, moves).op.value == start.op.value,
    decreases moves.len(),
{
    if moves.len() > 0 {
        lemma_call_inv(start, moves.drop_last(), s, key, keys, start_ts);
        lemma_lock_world(start, moves.drop_last());
        lemma_lock_world(start, moves);
        lemma_move_keeps_call_inv(
            lock_world_after(start, moves.drop_last()),
            moves.last(),
            s,
            key,
            keys,
            start_ts,
        );
    }
}

/// A call that has nothing to ask leaves the session as it is but for the write.
proof fn lemma_idle_call(
    start: LockWorld,
    moves: Seq<Move>,
    client: ClientView,
    keys: Seq<Seq<u8>>,
)
    requires
        start.op.phase is Done,
        well_formed(start.table),
        locks_stand(start.table, client, keys),
        call_moves_allowed(start, moves, keys),
    ensures
        lock_world_after(start, moves).op == start.op,
        lock_world_after(start, moves).client == start.client,
        well_formed(lock_world_after(start, moves).table),
        locks_stand(lock_world_after(start, moves).table, client, keys),
    decreases moves.len(),
{
    if moves.len() > 0 {
        let before = lock_world_after(start, moves.drop_last());
        lemma_idle_call(start, moves.drop_last(), client, keys);
        if let Move::Other(a) = moves.last() {
            lemma_requests_keep_table_well_formed(before.table, a);
            lemma_others_leave_locks(before.table, a, client, keys);
        }
    }
}

proof fn lemma_call_keeps_session_inv(
    s: Session,
    call: Call,
    keys: Seq<Seq<u8>>,
    start_ts: u64,
)
    requires
        session_inv(s, keys, start_ts),
        keys.contains(call_key(call)),
        call_moves_allowed(call_start(s, call), call_moves(call), keys),
        call_end(s, call).op.phase is Done,
    ensures
        session_inv(
            Session { client: call_end(s, call).client, table: call_end(s, call).table },
            keys,
            start_ts,
        ),
        succeeded(call_end(s, call).op),
        call_end(s, call).client.writes == match call {
            Call::Write { key, value, .. } => s.client.writes.push((key, value)),
            Call::Lock { .. } => s.client.writes,
        },
{
    let key = call_key(call);
    let start = call_start(s, call);
    let end = call_end(s, call);
    if let Call::Write { value, .. } = call {
        lemma_read_your_writes(s.client.writes, key, value);
    }
    if s.client.locked_keys.contains(key) {
        lemma_idle_call(start, call_moves(call), s.client, keys);
    } else {
        lemma_call_inv(start, call_moves(call), s, key, keys, start_ts);
        let more = s.client.locked_keys.push(key);
        assert(more[s.client.locked_keys.len() as int] == key);
        assert forall|k: Seq<u8>| #[trigger] s.client.locked_keys.contains(k) implies more.contains(
            k,
        ) by {
            let i = choose|i: int|
                0 <= i < s.client.locked_keys.len() && s.client.locked_keys[i] == k;
            assert(more[i] == k);
        }
        assert forall|k: Seq<u8>| #[trigger] more.contains(k) implies keys.contains(k) by {
            let i = choose|i: int| 0 <= i < more.len() && more[i] == k;
            if i < s.client.locked_keys.len() {
                assert(s.client.locked_keys.contains(s.client.locked_keys[i]));
            }
        }
    }
    assert forall|k: Seq<u8>| #[trigger] last_value(end.client.writes, k) is Some implies
        end.client.locked_keys.contains(k) by {
        if k != key {
            assert(last_value(s.client.writes, k) is Some);
            assert(s.client.locked_keys.contains(k));
        }
    }
}

proof fn lemma_session_inv(
    start_ts: u64,
    table: TableView,
    calls: Seq<Call>,
    keys: Seq<Seq<u8>>,
)
    requires
        well_formed(table),
        forall|k: Seq<u8>| #[trigger] keys.contains(k) ==> is_free(table, k, start_ts),
        ({
            let start = Session {
                client: ClientView::idle(TxnMode::Pessimistic, start_ts),
                table,
            };
            session_runs(start, calls, keys)
        }),
    ensures
        ({
            let start = Session {
                client: ClientView::idle(TxnMode::Pessimistic, start_ts),
                table,
            };
            let end = session_after(start, calls);
            &&& session_inv(end, keys, start_ts)
            &&& forall|k: Seq<u8>| #[trigger]
                last_value(end.client.writes, k) == last_set(calls, k)
        }),
    decreases calls.len(),
{
    if calls.len() > 0 {
        let start = Session { client: ClientView::idle(TxnMode::Pessimistic, start_ts), table };
        let rest = calls.drop_last();
        let before = session_after(start, rest);
        lemma_session_inv(start_ts, table, rest, keys);
        lemma_call_keeps_session_inv(before, calls.last(), keys, start_ts);
        if let Call::Write { key, value, .. } = calls.last() {
            lemma_read_your_writes(before.client.writes, key, value);
        }
        assert forall|k: Seq<u8>| #[trigger]
            last_value(session_after(start, calls).client.writes, k) == last_set(calls, k) by {
            assert(last_value(before.client.writes, k) == last_set(rest, k));
        }
    }
}

/// A pessimistic transaction that nobody disturbs runs through. Let it start on keys that are
/// free, and let others keep off these keys. Then every `set` and every `lock_for_update`
/// succeeds, what the transaction has written for a key is the value of the last `set` of it,
/// and the commit, once it is over, reports success.
pub proof fn lemma_undisturbed_session_commits(
    start_ts: u64,
    table: TableView,
    calls: Seq<Call>,
    keys: Seq<Seq<u8>>,
    last: Call,
    moves: Seq<Move>,
)
    requires
        well_formed(table),
        forall|k: Seq<u8>| #[trigger] keys.contains(k) ==> is_free(table, k, start_ts),
        ({
            let start = Session {
                client: ClientView::idle(TxnMode::Pessimistic, start_ts),
                table,
            };
            let end = session_after(start, calls.push(last));
            &&& session_runs(start, calls.push(last), keys)
            &&& undisturbed_run(world_start(end.client, end.table), moves)
        }),
    ensures
        ({
            let start = Session {
                client: ClientView::idle(TxnMode::Pessimistic, start_ts),
                table,
            };
            let before = session_after(start, calls);
            let end = session_after(start, calls.push(last));
            let done = world_after(world_start(end.client, end.table), moves).op;
            &&& succeeded(call_end(before, last).op)
            &&& end.client.locked_keys.contains(call_key(last))
            &&& forall|k: Seq<u8>| #[trigger]
                last_value(end.client.writes, k) == last_set(calls.push(last), k)
            &&& done.phase matches CommitPhaseView::Done(outcome) ==> outcome == Ok::<
                bool,
                Error,
            >(true)
        }),
{
    let start = Session { client: ClientView::idle(TxnMode::Pessimistic, start_ts), table };
    let all = calls.push(last);
    let end = session_after(start, all);
    assert(all.drop_last() =~= calls);
    lemma_session_inv(start_ts, table, calls, keys);
    lemma_session_inv(start_ts, table, all, keys);
    let before = session_after(start, calls);
    lemma_call_keeps_session_inv(before, last, keys, start_ts);
    lemma_call_locks_key(before, last, keys, start_ts);
    let world = world_start(end.client, end.table);
    if end.client.writes.len() > 0 {
        assert forall|k: Seq<u8>| #[trigger] last_value(end.client.writes, k) is Some implies {
            &&& end.client.locked_keys.contains(k)
            &&& end.table.lock.contains_key((k, end.client.start_ts))
            &&& end.table.lock[(k, end.client.start_ts)] == lock_cell(
                1,
                names(end.client.locked_keys[0], k),
            )
        } by {
            assert(keys.contains(k));
        }
        lemma_locked_transaction_commits(end.client, end.table, moves);
    } else {
        let events = lemma_world_is_a_course(end.client, end.table, moves);
        lemma_commit_without_writes(end.client, events);
    }
}

proof fn lemma_call_locks_key(s: Session, call: Call, keys: Seq<Seq<u8>>, start_ts: u64)
    requires
        session_inv(s, keys, start_ts),
        keys.contains(call_key(call)),
        call_moves_allowed(call_start(s, call), call_moves(call), keys),
        call_end(s, call).op.phase is Done,
    ensures
        call_end(s, call).client.locked_keys.contains(call_key(call)),
{
    let key = call_key(call);
    let start = call_start(s, call);
    if s.client.locked_keys.contains(key) {
        lemma_idle_call(start, call_moves(call), s.client, keys);
    } else {
        lemma_call_inv(start, call_moves(call), s, key, keys, start_ts);
        let more = s.client.locked_keys.push(key);
        assert(more[s.client.locked_keys.len() as int] == key);
    }
}

/// What a commit hears in a series of moves.
proof fn lemma_world_is_a_course(
    client: ClientView,
    table: TableView,
    moves: Seq<Move>,
) -> (events: Seq<Event>)
    ensures
        world_after(world_start(client, table), moves).op == commit_after(
            client.commit_op(),
            events,
        ),
    decreases moves.len(),
{
    if moves.len() == 0 {
        Seq::empty()
    } else {
        let before = lemma_world_is_a_course(client, table, moves.drop_last());
        match moves.last() {
            Move::Own(e) => {
                assert(before.push(e).drop_last() =~= before);
                before.push(e)
            },
            Move::Other(_) => before,
        }
    }
}

} // verus!
