//! What a client operation asks for, step by step, and how its outcome follows from the answers
//! that it gets.

use vstd::prelude::*;

use crate::action::{answers, ActionView, Event};
use crate::buffer::{
    coalesced, distinct_keys, keys_distinct, keys_of, last_value, lemma_coalesced,
    lemma_distinct_keys, lemma_last_value_at, lemma_read_your_writes,
};
use crate::client::{ClientView, TxnMode};
use crate::commit_op::{
    commit_next, commit_pending, commit_valid, keys_to_release, primary_first, CommitPhaseView,
    CommitView,
};
use crate::error::Error;
use crate::get_op::{get_next, get_pending, GetPhaseView, GetView};
use crate::lock_op::{lock_next, lock_pending, LockPhaseView, LockView};
use crate::system_laws::lemma_same_writes_same_keys;
use crate::txn_laws::{
    commit_after, committed_keys, lemma_backoff_doubles, lemma_commit_valid_next,
    lemma_failed_prewrite_releases_locks, lemma_lock_released, lemma_primary_first, lock_after,
    prewritten_keys, released_keys, rolled_back_keys,
};

verus! {

/// How long to wait after this many failures in a row, in milliseconds.
pub open spec fn wait_after(failures: nat) -> u64 {
    if failures == 1 {
        100
    } else {
        200
    }
}

// ---- The course of a get ----

/// The state of a get after a series of events.
pub open spec fn get_after(s: GetView, events: Seq<Event>) -> GetView
    decreases events.len(),
{
    if events.len() == 0 {
        s
    } else {
        get_next(get_after(s, events.drop_last()), events.last())
    }
}

/// What the store has answered last to a request of the get, if it has been asked.
pub open spec fn get_answer(s: GetView, events: Seq<Event>) -> Option<Result<Seq<u8>, Error>>
    decreases events.len(),
{
    if events.len() == 0 {
        None
    } else {
        match (get_pending(get_after(s, events.drop_last())), events.last()) {
            (Some(ActionView::Get { .. }), Event::Get(reply)) => match reply {
                Ok(response) => Some(Ok(response.value@)),
                Err(e) => Some(Err(e)),
            },
            _ => get_answer(s, events.drop_last()),
        }
    }
}

/// How often the store has refused a request of the get.
pub open spec fn get_failures(s: GetView, events: Seq<Event>) -> nat
    decreases events.len(),
{
    if events.len() == 0 {
        0
    } else {
        let before = get_failures(s, events.drop_last());
        match (get_pending(get_after(s, events.drop_last())), events.last()) {
            (Some(ActionView::Get { .. }), Event::Get(Err(_))) => before + 1,
            _ => before,
        }
    }
}

/// How often the get has waited.
pub open spec fn get_waits(s: GetView, events: Seq<Event>) -> nat
    decreases events.len(),
{
    if events.len() == 0 {
        0
    } else {
        let before = get_waits(s, events.drop_last());
        match (get_pending(get_after(s, events.drop_last())), events.last()) {
            (Some(ActionView::Sleep { .. }), Event::Slept) => before + 1,
            _ => before,
        }
    }
}

proof fn lemma_get_history(start: GetView, events: Seq<Event>)
    requires
        start.phase == (GetPhaseView::Asking { attempt: 0 }),
    ensures
        ({
            let s = get_after(start, events);
            let failures = get_failures(start, events);
            let waits = get_waits(start, events);
            let answer = get_answer(start, events);
            &&& s.key == start.key
            &&& s.start_ts == start.start_ts
            &&& match s.phase {
                GetPhaseView::Asking { attempt } => {
                    &&& failures == attempt && waits == attempt && attempt < 3
                    &&& !(answer matches Some(Ok(_)))
                },
                GetPhaseView::Waiting { attempt } => {
                    &&& failures == attempt + 1 && waits == attempt && failures < 3
                    &&& !(answer matches Some(Ok(_)))
                },
                GetPhaseView::Done(outcome) => {
                    answer == Some(outcome) && (outcome is Err ==> failures == 3)
                },
            }
        }),
    decreases events.len(),
{
    if events.len() > 0 {
        lemma_get_history(start, events.drop_last());
    }
}

/// A get of a key that the transaction has written asks for nothing and gives the value written
/// last. Any other get asks the store for exactly this key at the snapshot of the transaction,
/// up to three times with a wait of 100 ms and then of 200 ms in between, and ends with exactly
/// what the store answered last: with the first value that it gets, or with the third error.
pub proof fn lemma_get_course(client: ClientView, key: Seq<u8>, events: Seq<Event>)
    ensures
        ({
            let start = client.get_op(key);
            let s = get_after(start, events);
            let failures = get_failures(start, events);
            let waits = get_waits(start, events);
            let answer = get_answer(start, events);
            match last_value(client.writes, key) {
                Some(value) => {
                    s.phase == GetPhaseView::Done(Ok(value)) && get_pending(s) is None
                },
                None => {
                    &&& match get_pending(s) {
                        Some(ActionView::Get { key: k, start_ts }) => {
                            &&& k == key
                            &&& start_ts == client.start_ts
                            &&& failures == waits && failures < 3
                        },
                        Some(ActionView::Sleep { millis }) => {
                            &&& failures == waits + 1 && failures < 3
                            &&& millis == wait_after(failures)
                        },
                        Some(_) => false,
                        None => {
                            &&& s.phase matches GetPhaseView::Done(outcome)
                            &&& answer == Some(outcome)
                            &&& outcome is Err ==> failures == 3
                        },
                    }
                    &&& answer matches Some(Ok(value)) ==> s.phase == GetPhaseView::Done(Ok(value))
                },
            }
        }),
{
    let start = client.get_op(key);
    lemma_backoff_doubles();
    match last_value(client.writes, key) {
        Some(value) => lemma_finished_get_stays(start, events),
        None => lemma_get_history(start, events),
    }
}

proof fn lemma_finished_get_stays(start: GetView, events: Seq<Event>)
    requires
        start.phase is Done,
    ensures
        get_after(start, events) == start,
    decreases events.len(),
{
    if events.len() > 0 {
        lemma_finished_get_stays(start, events.drop_last());
    }
}

// ---- The course of a lock acquisition ----

/// The acquisition is over and has the lock.
pub open spec fn succeeded(s: LockView) -> bool {
    s.phase matches LockPhaseView::Done(outcome) && outcome is Ok
}

/// What the store has answered last to a lock request of the acquisition, if it has been asked.
pub open spec fn lock_answer(s: LockView, client: ClientView, events: Seq<Event>) -> Option<
    Result<(), Error>,
>
    decreases events.len(),
{
    if events.len() == 0 {
        None
    } else {
        match (lock_pending(lock_after(s, client, events.drop_last()).0), events.last()) {
            (Some(ActionView::PessimisticLock { .. }), Event::PessimisticLock(reply)) => match reply {
                Ok(_) => Some(Ok(())),
                Err(e) => Some(Err(e)),
            },
            _ => lock_answer(s, client, events.drop_last()),
        }
    }
}

/// What the oracle has answered to the acquisition, if it has been asked.
pub open spec fn lock_timestamp(s: LockView, client: ClientView, events: Seq<Event>) -> Option<
    Result<u64, Error>,
>
    decreases events.len(),
{
    if events.len() == 0 {
        None
    } else {
        match (lock_pending(lock_after(s, client, events.drop_last()).0), events.last()) {
            (Some(ActionView::GetTimestamp), Event::Timestamp(reply)) => Some(reply),
            _ => lock_timestamp(s, client, events.drop_last()),
        }
    }
}

/// How often the store has refused the lock.
pub open spec fn lock_failures(s: LockView, client: ClientView, events: Seq<Event>) -> nat
    decreases events.len(),
{
    if events.len() == 0 {
        0
    } else {
        let before = lock_failures(s, client, events.drop_last());
        match (lock_pending(lock_after(s, client, events.drop_last()).0), events.last()) {
            (Some(ActionView::PessimisticLock { .. }), Event::PessimisticLock(Err(_))) => before + 1,
            _ => before,
        }
    }
}

/// How often the acquisition has waited.
pub open spec fn lock_waits(s: LockView, client: ClientView, events: Seq<Event>) -> nat
    decreases events.len(),
{
    if events.len() == 0 {
        0
    } else {
        let before = lock_waits(s, client, events.drop_last());
        match (lock_pending(lock_after(s, client, events.drop_last()).0), events.last()) {
            (Some(ActionView::Sleep { .. }), Event::Slept) => before + 1,
            _ => before,
        }
    }
}

/// The oracle has failed with `error`, or the store has refused the lock with `error` for good:
/// for the third time, or because of a write conflict.
pub open spec fn lock_failed_with(
    s: LockView,
    client: ClientView,
    events: Seq<Event>,
    error: Error,
) -> bool {
    match lock_timestamp(s, client, events) {
        Some(Ok(_)) => {
            &&& lock_answer(s, client, events) == Some(Err::<(), Error>(error))
            &&& lock_failures(s, client, events) == 3 || error.reports_write_conflict()
        },
        Some(Err(e)) => e == error && lock_answer(s, client, events) is None,
        None => false,
    }
}

/// The store may be asked again: it has refused the lock less than three times, and never
/// because of a write conflict.
pub open spec fn lock_retries(s: LockView, client: ClientView, events: Seq<Event>) -> bool {
    &&& lock_failures(s, client, events) < 3
    &&& match lock_answer(s, client, events) {
        None => true,
        Some(Ok(_)) => false,
        Some(Err(e)) => !e.reports_write_conflict(),
    }
}

spec fn lock_course(
    s: LockView,
    now: ClientView,
    start: LockView,
    client: ClientView,
    events: Seq<Event>,
) -> bool {
    let failures = lock_failures(start, client, events);
    let waits = lock_waits(start, client, events);
    let released = released_keys(start, client, events);
    &&& s.key == start.key && s.start_ts == start.start_ts && s.primary == start.primary && s.value
        == start.value
    &&& match s.phase {
        LockPhaseView::AwaitingTimestamp => {
            &&& lock_timestamp(start, client, events) is None
            &&& lock_answer(start, client, events) is None
            &&& failures == 0 && waits == 0
        },
        LockPhaseView::Locking { for_update_ts, attempt } => {
            &&& lock_timestamp(start, client, events) == Some(Ok::<u64, Error>(for_update_ts))
            &&& failures == attempt && waits == attempt
            &&& lock_retries(start, client, events)
        },
        LockPhaseView::Waiting { for_update_ts, attempt } => {
            &&& lock_timestamp(start, client, events) == Some(Ok::<u64, Error>(for_update_ts))
            &&& failures == attempt + 1 && waits == attempt
            &&& lock_retries(start, client, events)
        },
        LockPhaseView::Aborting { keys, index, error } => {
            &&& start.value is Some
            &&& lock_failed_with(start, client, events, error)
            &&& keys == client.locked_keys
            &&& index < keys.len() && index == released.len()
        },
        LockPhaseView::Done(Ok(_)) => {
            &&& lock_answer(start, client, events) matches Some(Ok(_))
            &&& lock_timestamp(start, client, events) matches Some(Ok(_))
        },
        LockPhaseView::Done(Err(e)) => lock_failed_with(start, client, events, e),
    }
    &&& match s.phase {
        LockPhaseView::AwaitingTimestamp
        | LockPhaseView::Locking { .. }
        | LockPhaseView::Waiting { .. } => now == client && released.len() == 0,
        LockPhaseView::Done(Ok(_)) => {
            &&& released.len() == 0
            &&& now.mode == client.mode && now.start_ts == client.start_ts && now.aborted
                == client.aborted
            &&& !client.locked_keys.contains(start.key) ==> now.locked_keys
                == client.locked_keys.push(start.key)
            &&& now.writes == match start.value {
                Some(value) => client.writes.push((start.key, value)),
                None => client.writes,
            }
        },
        LockPhaseView::Aborting { .. } | LockPhaseView::Done(Err(_)) => if start.value is Some {
            &&& now.mode == client.mode && now.start_ts == client.start_ts
            &&& now.writes == client.writes
            &&& now.locked_keys.len() == 0
            &&& now.aborted
        } else {
            now == client && released.len() == 0
        },
    }
}

#[verifier::spinoff_prover]
#[verifier::rlimit(60)]
proof fn lemma_lock_course_holds(start: LockView, client: ClientView, events: Seq<Event>)
    requires
        start.phase is AwaitingTimestamp,
    ensures
        ({
            let (s, now) = lock_after(start, client, events);
            lock_course(s, now, start, client, events)
        }),
    decreases events.len(),
{
    if events.len() > 0 {
        lemma_lock_course_holds(start, client, events.drop_last());
    }
}

/// The first state of a `set` of a value, or of a `lock_for_update` where there is none.
pub open spec fn acquisition(client: ClientView, key: Seq<u8>, value: Option<Seq<u8>>) -> LockView {
    match value {
        Some(v) => client.set_op(key, v).0,
        None => client.lock_op(key),
    }
}

/// An acquisition asks the oracle once and then the store, for exactly this key in the name of
/// this transaction, at the timestamp that it was given, under the first key that the
/// transaction has locked, or under this one if it is the first. It asks up to three times, with
/// a wait of 100 ms and then of 200 ms in between, but not again after a write conflict. It
/// succeeds exactly if the last answer of the store was a success, and otherwise fails with the
/// error that made it give up. While it runs, the client stays as it is.
pub proof fn lemma_lock_course(
    client: ClientView,
    key: Seq<u8>,
    value: Option<Seq<u8>>,
    events: Seq<Event>,
)
    requires
        client.valid(),
        client.mode == TxnMode::Pessimistic,
        !client.locked_keys.contains(key),
    ensures
        ({
            let start = acquisition(client, key, value);
            let (s, now) = lock_after(start, client, events);
            let failures = lock_failures(start, client, events);
            let waits = lock_waits(start, client, events);
            let released = released_keys(start, client, events);
            match lock_pending(s) {
                Some(ActionView::GetTimestamp) => {
                    lock_timestamp(start, client, events) is None && now == client
                },
                Some(ActionView::PessimisticLock { key: k, start_ts, for_update_ts, primary }) => {
                    &&& k == key
                    &&& start_ts == client.start_ts
                    &&& lock_timestamp(start, client, events) == Some(
                        Ok::<u64, Error>(for_update_ts),
                    )
                    &&& primary == if client.locked_keys.len() == 0 {
                        key
                    } else {
                        client.locked_keys[0]
                    }
                    &&& failures == waits && lock_retries(start, client, events)
                    &&& now == client
                },
                Some(ActionView::Sleep { millis }) => {
                    &&& failures == waits + 1 && lock_retries(start, client, events)
                    &&& millis == wait_after(failures)
                    &&& now == client
                },
                Some(ActionView::Rollback { key: k, start_ts }) => {
                    &&& value is Some
                    &&& start_ts == client.start_ts
                    &&& released.len() < client.locked_keys.len()
                    &&& k == client.locked_keys[released.len() as int]
                    &&& exists|e: Error| #[trigger] lock_failed_with(start, client, events, e)
                },
                Some(_) => false,
                None => s.phase is Done,
            }
        }),
        ({
            let start = acquisition(client, key, value);
            let (s, now) = lock_after(start, client, events);
            let failures = lock_failures(start, client, events);
            let waits = lock_waits(start, client, events);
            let released = released_keys(start, client, events);
            s.phase matches LockPhaseView::Done(outcome) ==> match outcome {
                Ok(_) => {
                    &&& lock_answer(start, client, events) matches Some(Ok(_))
                    &&& now.locked_keys == client.locked_keys.push(key)
                    &&& now.writes == match value {
                        Some(v) => client.writes.push((key, v)),
                        None => client.writes,
                    }
                    &&& now.mode == client.mode && now.start_ts == client.start_ts && now.aborted
                        == client.aborted
                },
                Err(e) => {
                    &&& lock_failed_with(start, client, events, e)
                    &&& value is None ==> now == client
                    &&& value is Some ==> {
                        &&& now.writes == client.writes
                        &&& now.locked_keys.len() == 0
                        &&& now.aborted
                        &&& released == client.locked_keys
                    }
                },
            }
        }),
        ({
            let start = acquisition(client, key, value);
            let (s, now) = lock_after(start, client, events);
            let failures = lock_failures(start, client, events);
            let waits = lock_waits(start, client, events);
            let released = released_keys(start, client, events);
            lock_answer(start, client, events) matches Some(Ok(_)) ==> succeeded(s)
        }),
{
    let start = acquisition(client, key, value);
    lemma_backoff_doubles();
    lemma_lock_course_holds(start, client, events);
    lemma_lock_released(start, client, events);
    let (s, now) = lock_after(start, client, events);
    if let LockPhaseView::Aborting { keys, index, error } = s.phase {
        assert(lock_failed_with(start, client, events, error));
    }
}

/// A key that the transaction has locked is not asked for again: the call succeeds at once.
pub proof fn lemma_locked_key_is_not_asked_for(
    client: ClientView,
    key: Seq<u8>,
    value: Seq<u8>,
    events: Seq<Event>,
)
    requires
        client.mode == TxnMode::Optimistic || client.locked_keys.contains(key),
    ensures
        ({
            let (op, now) = client.set_op(key, value);
            &&& lock_after(op, now, events) == (op, now)
            &&& op.phase == LockPhaseView::Done(Ok(()))
            &&& lock_pending(op) is None
            &&& now.locked_keys == client.locked_keys
        }),
        client.locked_keys.contains(key) ==> ({
            let op = client.lock_op(key);
            &&& lock_after(op, client, events) == (op, client)
            &&& op.phase == LockPhaseView::Done(Ok(()))
            &&& lock_pending(op) is None
        }),
{
    let (op, now) = client.set_op(key, value);
    lemma_finished_lock_stays(op, now, events);
    if client.locked_keys.contains(key) {
        lemma_finished_lock_stays(client.lock_op(key), client, events);
    }
}

proof fn lemma_finished_lock_stays(s: LockView, client: ClientView, events: Seq<Event>)
    requires
        s.phase is Done,
    ensures
        lock_after(s, client, events) == (s, client),
    decreases events.len(),
{
    if events.len() > 0 {
        lemma_finished_lock_stays(s, client, events.drop_last());
    }
}

/// A `set` that ends in success is the last write of its key, in either mode and whether or not
/// the key was written or locked before, and changes what is written for no other key. One that
/// has not succeeded has written nothing. Either way a get of the same transaction gives what
/// is written last.
pub proof fn lemma_set_writes_last(
    client: ClientView,
    key: Seq<u8>,
    value: Seq<u8>,
    events: Seq<Event>,
)
    ensures
        ({
            let (op, called) = client.set_op(key, value);
            let (s, now) = lock_after(op, called, events);
            if succeeded(s) {
                &&& now.writes == client.writes.push((key, value))
                &&& last_value(now.writes, key) == Some(value)
                &&& forall|k: Seq<u8>|
                    k != key ==> #[trigger] last_value(now.writes, k) == last_value(
                        client.writes,
                        k,
                    )
                &&& now.get_op(key).phase == GetPhaseView::Done(Ok(value))
                &&& now.mode == TxnMode::Pessimistic ==> now.locked_keys.contains(key)
                &&& now.mode == client.mode && now.start_ts == client.start_ts && now.aborted
                    == client.aborted
            } else {
                now.writes == client.writes
            }
        }),
{
    let (op, called) = client.set_op(key, value);
    let (s, now) = lock_after(op, called, events);
    if client.mode == TxnMode::Pessimistic && !client.locked_keys.contains(key) {
        lemma_lock_course_holds(op, called, events);
        if succeeded(s) {
            assert(now.locked_keys[client.locked_keys.len() as int] == key);
        }
    } else {
        lemma_finished_lock_stays(op, called, events);
    }
    lemma_read_your_writes(client.writes, key, value);
}

/// An event that does not answer what an operation waits for changes nothing.
pub proof fn lemma_only_answers_count(
    g: GetView,
    l: LockView,
    c: CommitView,
    client: ClientView,
    e: Event,
)
    ensures
        !(commit_pending(c) matches Some(a) && answers(a, e)) ==> commit_next(c, e) == c,
        !(get_pending(g) matches Some(a) && answers(a, e)) ==> get_next(g, e) == g,
        !(lock_pending(l) matches Some(a) && answers(a, e)) ==> lock_next(l, client, e) == (
            l,
            client,
        ),
{
}

// ---- The course of a commit ----

/// How often in a row the store has refused the prewrite of the key that is due.
pub open spec fn prewrite_failures(s: CommitView, events: Seq<Event>) -> nat
    decreases events.len(),
{
    if events.len() == 0 {
        0
    } else {
        let before = prewrite_failures(s, events.drop_last());
        match (commit_pending(commit_after(s, events.drop_last())), events.last()) {
            (Some(ActionView::Prewrite { .. }), Event::Prewrite(Ok(_))) => 0,
            (Some(ActionView::Prewrite { .. }), Event::Prewrite(Err(_))) => before + 1,
            _ => before,
        }
    }
}

/// How often the commit has waited since the last prewrite that was granted.
pub open spec fn prewrite_waits(s: CommitView, events: Seq<Event>) -> nat
    decreases events.len(),
{
    if events.len() == 0 {
        0
    } else {
        let before = prewrite_waits(s, events.drop_last());
        match (commit_pending(commit_after(s, events.drop_last())), events.last()) {
            (Some(ActionView::Prewrite { .. }), Event::Prewrite(Ok(_))) => 0,
            (Some(ActionView::Sleep { .. }), Event::Slept) => before + 1,
            _ => before,
        }
    }
}

/// The store has refused the last prewrite because of a write conflict.
pub open spec fn prewrite_conflict(s: CommitView, events: Seq<Event>) -> bool
    decreases events.len(),
{
    if events.len() == 0 {
        false
    } else {
        match (commit_pending(commit_after(s, events.drop_last())), events.last()) {
            (Some(ActionView::Prewrite { .. }), Event::Prewrite(Ok(_))) => false,
            (Some(ActionView::Prewrite { .. }), Event::Prewrite(Err(e))) => e.reports_write_conflict(),
            _ => prewrite_conflict(s, events.drop_last()),
        }
    }
}

/// What the oracle has answered to the commit, if it has been asked.
pub open spec fn commit_timestamp(s: CommitView, events: Seq<Event>) -> Option<Result<u64, Error>>
    decreases events.len(),
{
    if events.len() == 0 {
        None
    } else {
        match (commit_pending(commit_after(s, events.drop_last())), events.last()) {
            (Some(ActionView::GetTimestamp), Event::Timestamp(reply)) => Some(reply),
            _ => commit_timestamp(s, events.drop_last()),
        }
    }
}

/// The store has not acknowledged the commit of some key.
pub open spec fn commit_unacknowledged(s: CommitView, events: Seq<Event>) -> bool
    decreases events.len(),
{
    if events.len() == 0 {
        false
    } else {
        match (commit_pending(commit_after(s, events.drop_last())), events.last()) {
            (Some(ActionView::Commit { .. }), Event::Commit(reply)) => {
                !(reply matches Ok(response) && response.ok)
            },
            _ => commit_unacknowledged(s, events.drop_last()),
        }
    }
}

/// The primary of a transaction: the first key that it has locked, or else the first that it
/// has written.
pub open spec fn first_key(client: ClientView) -> Seq<u8> {
    if client.locked_keys.len() > 0 {
        client.locked_keys[0]
    } else {
        client.writes[0].0
    }
}

/// Prewriting has failed for good.
pub open spec fn prewriting_failed(s: CommitView, events: Seq<Event>) -> bool {
    &&& commit_timestamp(s, events) is None
    &&& prewrite_failures(s, events) == 3 || prewrite_conflict(s, events)
}

/// The outcome of a commit follows from the answers.
pub open spec fn outcome_follows(
    s: CommitView,
    events: Seq<Event>,
    outcome: Result<bool, Error>,
) -> bool {
    match outcome {
        Ok(true) => {
            &&& commit_timestamp(s, events) matches Some(Ok(_))
            &&& !commit_unacknowledged(s, events)
        },
        Ok(false) => {
            ||| prewriting_failed(s, events)
            ||| (commit_timestamp(s, events) matches Some(Ok(_))) && commit_unacknowledged(s, events)
        },
        Err(e) => commit_timestamp(s, events) == Some(Err::<u64, Error>(e)),
    }
}

spec fn commit_course(s: CommitView, start: CommitView, events: Seq<Event>) -> bool {
    let n = start.writes.len();
    let failures = prewrite_failures(start, events);
    let prewritten = prewritten_keys(start, events);
    let committed = committed_keys(start, events);
    let rolled_back = rolled_back_keys(start, events);
    let ordered = primary_first(start.writes, start.primary);
    &&& s.start_ts == start.start_ts && s.primary == start.primary && s.locked_keys
        == start.locked_keys
    &&& commit_valid(s)
    &&& match s.phase {
        CommitPhaseView::Prewriting { index, attempt } => {
            &&& s.writes == start.writes
            &&& prewritten == keys_of(start.writes).take(index as int)
            &&& failures == attempt && !prewrite_conflict(start, events)
            &&& prewrite_waits(start, events) == attempt
            &&& commit_timestamp(start, events) is None && !commit_unacknowledged(start, events)
            &&& committed.len() == 0 && rolled_back.len() == 0
        },
        CommitPhaseView::Waiting { index, attempt } => {
            &&& s.writes == start.writes
            &&& prewritten == keys_of(start.writes).take(index as int)
            &&& failures == attempt + 1 && !prewrite_conflict(start, events)
            &&& prewrite_waits(start, events) == attempt
            &&& commit_timestamp(start, events) is None && !commit_unacknowledged(start, events)
            &&& committed.len() == 0 && rolled_back.len() == 0
        },
        CommitPhaseView::AwaitingTimestamp => {
            &&& s.writes == start.writes
            &&& prewritten == keys_of(start.writes)
            &&& commit_timestamp(start, events) is None && !commit_unacknowledged(start, events)
            &&& committed.len() == 0 && rolled_back.len() == 0
        },
        CommitPhaseView::Committing { commit_ts, index } => {
            &&& s.writes == ordered
            &&& prewritten == keys_of(start.writes)
            &&& committed == keys_of(ordered).take(index as int)
            &&& commit_timestamp(start, events) == Some(Ok::<u64, Error>(commit_ts))
            &&& !commit_unacknowledged(start, events)
            &&& rolled_back.len() == 0
        },
        CommitPhaseView::RollingBack { keys, index, outcome } => {
            &&& outcome != Ok::<bool, Error>(true)
            &&& outcome_follows(start, events, outcome)
            &&& rolled_back == keys.take(index as int)
            &&& releases(start, events, keys)
        },
        CommitPhaseView::Done(outcome) => {
            &&& outcome_follows(start, events, outcome)
            &&& outcome == Ok::<bool, Error>(true) ==> prewritten == keys_of(start.writes)
                && committed == keys_of(ordered) && rolled_back.len() == 0
            &&& outcome != Ok::<bool, Error>(true) ==> releases(start, events, rolled_back)
        },
    }
}

/// `keys` are the keys that a commit without success has to roll back: those prewritten and not
/// committed and, where prewriting failed, after them those locked early; and none that was
/// committed.
pub open spec fn releases(s: CommitView, events: Seq<Event>, keys: Seq<Seq<u8>>) -> bool {
    let prewritten = prewritten_keys(s, events);
    let committed = committed_keys(s, events);
    &&& forall|k: Seq<u8>| #[trigger]
        keys.contains(k) <==> (prewritten.contains(k) && !committed.contains(k)) || (
        commit_timestamp(s, events) is None && s.locked_keys.contains(k))
    &&& commit_timestamp(s, events) is None ==> prewritten.len() <= keys.len() && keys.take(
        prewritten.len() as int,
    ) == prewritten
}

#[verifier::spinoff_prover]
#[verifier::rlimit(60)]
proof fn lemma_commit_course_holds(start: CommitView, events: Seq<Event>)
    requires
        start.phase == (CommitPhaseView::Prewriting { index: 0, attempt: 0 }),
        start.writes.len() > 0,
        keys_distinct(start.writes),
    ensures
        commit_course(commit_after(start, events), start, events),
    decreases events.len(),
{
    let keys = keys_of(start.writes);
    let ordered = primary_first(start.writes, start.primary);
    let oks = keys_of(ordered);
    lemma_primary_first(start.writes, start.primary);
    lemma_same_writes_same_keys(start.writes, ordered);
    if events.len() == 0 {
        assert(keys.take(0) =~= Seq::<Seq<u8>>::empty());
    } else {
        let rest = events.drop_last();
        let e = events.last();
        lemma_commit_course_holds(start, rest);
        let s = commit_after(start, rest);
        let pre = prewritten_keys(start, rest);
        let com = committed_keys(start, rest);
        let rol = rolled_back_keys(start, rest);
        lemma_commit_valid_next(s, e);
        if rol.len() == 0 {
            assert(rol =~= Seq::<Seq<u8>>::empty());
        }
        if com.len() == 0 {
            assert(com =~= Seq::<Seq<u8>>::empty());
        }
        assert(oks.take(0) =~= Seq::<Seq<u8>>::empty());
        match s.phase {
            CommitPhaseView::Prewriting { index, attempt } => {
                assert(keys.take(index as int + 1) =~= keys.take(index as int).push(
                    keys[index as int],
                ));
                assert(keys.take(keys.len() as int) =~= keys);
                if let Event::Prewrite(Err(error)) = e {
                    let releasing = keys_to_release(s, index);
                    assert forall|k: Seq<u8>| #[trigger] releasing.contains(k) <==> (pre.contains(k)
                        && !com.contains(k)) || start.locked_keys.contains(k) by {
                        lemma_failed_prewrite_releases_locks(s, index, k);
                    }
                    assert(releasing.take(0) =~= Seq::<Seq<u8>>::empty());
                    assert(releasing.take(pre.len() as int) =~= pre);
                    if releasing.len() == 0 {
                        assert(releasing =~= Seq::<Seq<u8>>::empty());
                    }
                }
            },
            CommitPhaseView::AwaitingTimestamp => {
                assert(keys.take(0) =~= Seq::<Seq<u8>>::empty());
            },
            CommitPhaseView::Committing { commit_ts, index } => {
                assert(oks.take(index as int + 1) =~= oks.take(index as int).push(
                    oks[index as int],
                ));
                assert(oks.take(oks.len() as int) =~= oks);
                let releasing = oks.skip(index as int);
                assert(releasing.take(0) =~= Seq::<Seq<u8>>::empty());
                assert forall|k: Seq<u8>| #[trigger] releasing.contains(k) <==> pre.contains(k)
                    && !com.contains(k) by {
                    if releasing.contains(k) {
                        let j = choose|j: int| 0 <= j < releasing.len() && releasing[j] == k;
                        assert(oks[index + j] == k);
                        assert(oks.contains(k));
                        if com.contains(k) {
                            let i = choose|i: int| 0 <= i < com.len() && com[i] == k;
                            assert(ordered[i].0 != ordered[index + j].0);
                        }
                    }
                    if pre.contains(k) && !com.contains(k) {
                        assert(oks.contains(k));
                        let i = choose|i: int| 0 <= i < oks.len() && oks[i] == k;
                        if i < index {
                            assert(com[i] == k);
                        }
                        assert(releasing[i - index] == k);
                    }
                }
            },
            CommitPhaseView::RollingBack { keys: releasing, index, outcome } => {
                assert(releasing.take(index as int + 1) =~= releasing.take(index as int).push(
                    releasing[index as int],
                ));
                assert(releasing.take(releasing.len() as int) =~= releasing);
            },
            _ => {},
        }
    }
}

/// What a commit with writes asks for. It prewrites each key once, in the order of the first
/// writes, with the value written last, under the first key locked or else the first written; it
/// tries up to three times, with a wait of 100 ms and then of 200 ms in between, but not again
/// after a write conflict. With all keys prewritten it takes a timestamp, and commits each key
/// at that timestamp.
pub proof fn lemma_commit_requests(client: ClientView, events: Seq<Event>)
    requires
        client.valid(),
        !client.aborted,
        client.writes.len() > 0,
    ensures
        ({
            let start = client.commit_op();
            let s = commit_after(start, events);
            let writes = coalesced(client.writes);
            let done = prewritten_keys(start, events).len();
            let failures = prewrite_failures(start, events);
            match commit_pending(s) {
                Some(ActionView::Prewrite { key, value, start_ts, primary }) => {
                    &&& done < writes.len()
                    &&& (key, value) == writes[done as int]
                    &&& last_value(client.writes, key) == Some(value)
                    &&& start_ts == client.start_ts
                    &&& primary == first_key(client)
                    &&& failures < 3 && !prewrite_conflict(start, events)
                    &&& failures == prewrite_waits(start, events)
                    &&& commit_timestamp(start, events) is None
                },
                Some(ActionView::Sleep { millis }) => {
                    &&& 0 < failures < 3 && !prewrite_conflict(start, events)
                    &&& failures == prewrite_waits(start, events) + 1
                    &&& millis == wait_after(failures)
                },
                Some(ActionView::GetTimestamp) => {
                    &&& done == writes.len()
                    &&& commit_timestamp(start, events) is None
                },
                Some(ActionView::Commit { key, value, start_ts, commit_ts }) => {
                    &&& done == writes.len()
                    &&& last_value(client.writes, key) == Some(value)
                    &&& !committed_keys(start, events).contains(key)
                    &&& committed_keys(start, events).len() == 0 && last_value(
                        client.writes,
                        first_key(client),
                    ) is Some ==> key == first_key(client)
                    &&& start_ts == client.start_ts
                    &&& commit_timestamp(start, events) == Some(Ok::<u64, Error>(commit_ts))
                    &&& !commit_unacknowledged(start, events)
                },
                Some(ActionView::Rollback { key, start_ts }) => {
                    &&& start_ts == client.start_ts
                    &&& !committed_keys(start, events).contains(key)
                    &&& last_value(client.writes, key) is Some || client.locked_keys.contains(key)
                },
                Some(_) => false,
                None => s.phase is Done,
            }
        }),
{
    let start = client.commit_op();
    let writes = coalesced(client.writes);
    let s = commit_after(start, events);
    let ordered = primary_first(writes, start.primary);
    lemma_backoff_doubles();
    lemma_coalesced(client.writes);
    lemma_distinct_keys(client.writes);
    lemma_commit_course_holds(start, events);
    lemma_primary_first(writes, start.primary);
    assert(start.primary == first_key(client));
    assert forall|i: int| 0 <= i < writes.len() implies last_value(
        client.writes,
        (#[trigger] writes[i]).0,
    ) == Some(writes[i].1) by {
        lemma_last_value_at(writes, i);
    }
    match s.phase {
        CommitPhaseView::Committing { commit_ts, index } => {
            let write = ordered[index as int];
            assert(writes.contains(write));
            let committed = committed_keys(start, events);
            if committed.contains(write.0) {
                let i = choose|i: int| 0 <= i < committed.len() && committed[i] == write.0;
                assert(ordered[i].0 != ordered[index as int].0);
            }
            if last_value(client.writes, start.primary) is Some {
                assert(distinct_keys(client.writes).contains(start.primary));
                assert(keys_of(writes).contains(start.primary));
            }
        },
        CommitPhaseView::RollingBack { keys, index, .. } => {
            let key = keys[index as int];
            assert(keys.contains(key));
            lemma_rolling_back(start, events, client);
        },
        _ => {},
    }
}

/// What a failing commit rolls back are keys that the transaction has written or locked, and
/// none that is committed.
proof fn lemma_rolling_back(start: CommitView, events: Seq<Event>, client: ClientView)
    requires
        start == client.commit_op(),
        !client.aborted,
        client.writes.len() > 0,
        commit_after(start, events).phase is RollingBack,
    ensures
        ({
            let keys = commit_after(start, events).phase->keys;
            forall|k: Seq<u8>| #[trigger]
                keys.contains(k) ==> !committed_keys(start, events).contains(k) && (last_value(
                    client.writes,
                    k,
                ) is Some || client.locked_keys.contains(k))
        }),
{
    let keys = commit_after(start, events).phase->keys;
    lemma_coalesced(client.writes);
    lemma_distinct_keys(client.writes);
    lemma_commit_course_holds(start, events);
    lemma_prewritten_are_written(start, events);
    lemma_nothing_committed_before_timestamp(start, events);
    assert forall|k: Seq<u8>| #[trigger] keys.contains(k) implies !committed_keys(
        start,
        events,
    ).contains(k) && (last_value(client.writes, k) is Some || client.locked_keys.contains(k)) by {
        if prewritten_keys(start, events).contains(k) {
            assert(keys_of(start.writes).contains(k));
        }
    }
}

proof fn lemma_prewritten_are_written(start: CommitView, events: Seq<Event>)
    requires
        start.phase == (CommitPhaseView::Prewriting { index: 0, attempt: 0 }),
        start.writes.len() > 0,
        keys_distinct(start.writes),
    ensures
        forall|k: Seq<u8>| #[trigger]
            prewritten_keys(start, events).contains(k) ==> keys_of(start.writes).contains(k),
    decreases events.len(),
{
    if events.len() > 0 {
        let rest = events.drop_last();
        lemma_prewritten_are_written(start, rest);
        lemma_commit_course_holds(start, rest);
        let before = prewritten_keys(start, rest);
        let now = prewritten_keys(start, events);
        assert forall|k: Seq<u8>| #[trigger] now.contains(k) implies keys_of(
            start.writes,
        ).contains(k) by {
            let i = choose|i: int| 0 <= i < now.len() && now[i] == k;
            if i < before.len() {
                assert(before[i] == k);
                assert(before.contains(k));
            } else if let CommitPhaseView::Prewriting { index, .. } = commit_after(
                start,
                rest,
            ).phase {
                assert(keys_of(start.writes)[index as int] == k);
            }
        }
    }
}

proof fn lemma_nothing_committed_before_timestamp(start: CommitView, events: Seq<Event>)
    requires
        start.phase == (CommitPhaseView::Prewriting { index: 0, attempt: 0 }),
        start.writes.len() > 0,
        keys_distinct(start.writes),
    ensures
        !(commit_timestamp(start, events) matches Some(Ok(_))) ==> committed_keys(
            start,
            events,
        ).len() == 0,
    decreases events.len(),
{
    if events.len() > 0 {
        lemma_nothing_committed_before_timestamp(start, events.drop_last());
        lemma_commit_course_holds(start, events.drop_last());
    }
}

/// How a commit with writes ends. It reports success exactly if every key was prewritten and
/// committed; that it did not commit exactly if a prewrite was refused three times or because of
/// a write conflict, or the commit of a key was not acknowledged; and otherwise the error of the
/// oracle. Without success it has rolled back every key that it had prewritten and not
/// committed and, where prewriting failed, every key locked early; and no key that is committed.
pub proof fn lemma_commit_outcome(client: ClientView, events: Seq<Event>)
    requires
        client.valid(),
        !client.aborted,
        client.writes.len() > 0,
    ensures
        ({
            let start = client.commit_op();
            let s = commit_after(start, events);
            let rolled_back = rolled_back_keys(start, events);
            s.phase matches CommitPhaseView::Done(outcome) ==> {
                &&& outcome_follows(start, events, outcome)
                &&& outcome == Ok::<bool, Error>(true) ==> {
                    &&& forall|k: Seq<u8>| #[trigger]
                        last_value(client.writes, k) is Some ==> prewritten_keys(
                            start,
                            events,
                        ).contains(k) && committed_keys(start, events).contains(k)
                    &&& rolled_back.len() == 0
                }
                &&& outcome != Ok::<bool, Error>(true) ==> releases(start, events, rolled_back)
            }
        }),
{
    let start = client.commit_op();
    let writes = coalesced(client.writes);
    let ordered = primary_first(writes, start.primary);
    lemma_coalesced(client.writes);
    lemma_distinct_keys(client.writes);
    lemma_commit_course_holds(start, events);
    lemma_primary_first(writes, start.primary);
    lemma_same_writes_same_keys(writes, ordered);
    assert forall|k: Seq<u8>| #[trigger] last_value(client.writes, k) is Some implies keys_of(
        writes,
    ).contains(k) && keys_of(ordered).contains(k) by {
        assert(distinct_keys(client.writes).contains(k));
    }
}

/// A commit without writes sends no prewrite and no commit: it rolls back each key that was
/// locked, in order, and reports success.
pub proof fn lemma_commit_without_writes(client: ClientView, events: Seq<Event>)
    requires
        !client.aborted,
        client.writes.len() == 0,
    ensures
        ({
            let start = client.commit_op();
            let s = commit_after(start, events);
            let rolled_back = rolled_back_keys(start, events);
            match commit_pending(s) {
                Some(ActionView::Rollback { key, start_ts }) => {
                    &&& start_ts == client.start_ts
                    &&& rolled_back.len() < client.locked_keys.len()
                    &&& key == client.locked_keys[rolled_back.len() as int]
                },
                Some(_) => false,
                None => {
                    &&& s.phase == CommitPhaseView::Done(Ok(true))
                    &&& rolled_back == client.locked_keys
                },
            }
        }),
    decreases events.len(),
{
    lemma_release_course(client, events);
}

proof fn lemma_release_course(client: ClientView, events: Seq<Event>)
    requires
        !client.aborted,
        client.writes.len() == 0,
    ensures
        ({
            let start = client.commit_op();
            let s = commit_after(start, events);
            let rolled_back = rolled_back_keys(start, events);
            &&& s.start_ts == client.start_ts
            &&& match s.phase {
                CommitPhaseView::RollingBack { keys, index, outcome } => {
                    &&& keys == client.locked_keys && index < keys.len()
                    &&& outcome == Ok::<bool, Error>(true)
                    &&& rolled_back == keys.take(index as int)
                },
                CommitPhaseView::Done(outcome) => {
                    outcome == Ok::<bool, Error>(true) && rolled_back == client.locked_keys
                },
                _ => false,
            }
        }),
    decreases events.len(),
{
    let start = client.commit_op();
    if events.len() == 0 {
        assert(client.locked_keys.take(0) =~= Seq::<Seq<u8>>::empty());
        if client.locked_keys.len() == 0 {
            assert(client.locked_keys =~= Seq::<Seq<u8>>::empty());
        }
    } else {
        let rest = events.drop_last();
        lemma_release_course(client, rest);
        if let CommitPhaseView::RollingBack { keys, index, outcome } = commit_after(
            start,
            rest,
        ).phase {
            assert(keys.take(index as int + 1) =~= keys.take(index as int).push(
                keys[index as int],
            ));
            assert(keys.take(keys.len() as int) =~= keys);
        }
    }
}

} // verus!
