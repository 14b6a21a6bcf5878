//! What holds of client operations, whatever they hear back.

use vstd::prelude::*;

use crate::action::{answers, backoff, ActionView, Event, BACKOFF_TIME_MS, RETRY_TIMES};
use crate::buffer::{keys_distinct, keys_of, lemma_coalesced};
use crate::cell::WriteView;
use crate::client::ClientView;
use crate::commit_op::{
    commit_next, commit_pending, commit_start, commit_valid, is_place_of, keys_to_release,
    primary_first, CommitPhaseView, CommitView,
};
use crate::error::Error;
use crate::get_op::{get_next, get_pending, get_valid, GetPhaseView, GetView};
use crate::lock_op::{lock_next, lock_pending, lock_start, lock_valid, LockPhaseView, LockView};

verus! {

// ---- Every operation comes to an end ----

/// There are three attempts, with a wait of 100 ms after the first, and each further wait is
/// twice as long as the one before.
pub proof fn lemma_backoff_doubles()
    ensures
        RETRY_TIMES == 3,
        backoff(0) == 100,
        backoff(1) == 200,
        backoff(0) == BACKOFF_TIME_MS,
        backoff(1) == 2 * BACKOFF_TIME_MS,
{
    assert(100u64 << 0u64 == 100) by (bit_vector);
    assert(100u64 << 1u64 == 200) by (bit_vector);
}

/// The number of events that a get can still take.
pub open spec fn get_rank(s: GetView) -> int {
    match s.phase {
        GetPhaseView::Asking { attempt } => 2 * (RETRY_TIMES - attempt),
        GetPhaseView::Waiting { attempt } => 2 * (RETRY_TIMES - attempt) - 1,
        GetPhaseView::Done(_) => 0,
    }
}

/// A get ends after at most [`RETRY_TIMES`] requests: every answer brings it nearer to its
/// end.
pub proof fn lemma_get_terminates(s: GetView, e: Event)
    requires
        get_valid(s),
        get_pending(s) matches Some(a) && answers(a, e),
    ensures
        get_valid(get_next(s, e)),
        0 <= get_rank(get_next(s, e)) < get_rank(s) <= 2 * RETRY_TIMES,
{
}

/// The number of events that an acquisition can still take, when `locks` keys are locked.
pub open spec fn lock_rank(s: LockView, locks: nat) -> int {
    match s.phase {
        LockPhaseView::AwaitingTimestamp => 2 * RETRY_TIMES + locks + 1,
        LockPhaseView::Locking { attempt, .. } => 2 * (RETRY_TIMES - attempt) + locks,
        LockPhaseView::Waiting { attempt, .. } => 2 * (RETRY_TIMES - attempt) - 1 + locks,
        LockPhaseView::Aborting { keys, index, .. } => keys.len() - index,
        LockPhaseView::Done(_) => 0,
    }
}

/// The acquisition of a lock ends: every answer brings it nearer to its end.
pub proof fn lemma_lock_terminates(s: LockView, client: ClientView, e: Event)
    requires
        lock_valid(s),
        lock_pending(s) matches Some(a) && answers(a, e),
    ensures
        lock_valid(lock_next(s, client, e).0),
        0 <= lock_rank(lock_next(s, client, e).0, client.locked_keys.len()) < lock_rank(
            s,
            client.locked_keys.len(),
        ),
{
}

/// The number of events that a commit can still take.
pub open spec fn commit_rank(s: CommitView) -> int {
    let n = s.writes.len() as int;
    let rest = 2 * n + s.locked_keys.len() + 2;
    match s.phase {
        CommitPhaseView::Prewriting { index, attempt } => rest + 2 * RETRY_TIMES * (n - index) - 2
            * attempt,
        CommitPhaseView::Waiting { index, attempt } => rest + 2 * RETRY_TIMES * (n - index) - 2
            * attempt - 1,
        CommitPhaseView::AwaitingTimestamp => rest,
        CommitPhaseView::Committing { index, .. } => 2 * n - index + 1,
        CommitPhaseView::RollingBack { keys, index, .. } => keys.len() - index,
        CommitPhaseView::Done(_) => 0,
    }
}

/// A commit that still waits for an answer has a positive number of them to come.
pub proof fn lemma_commit_rank(s: CommitView)
    requires
        commit_valid(s),
    ensures
        commit_rank(s) >= 0,
        commit_pending(s) is Some <==> commit_rank(s) > 0,
{
}

/// A commit ends: every answer brings it nearer to its end.
pub proof fn lemma_commit_terminates(s: CommitView, e: Event)
    requires
        commit_valid(s),
        commit_pending(s) matches Some(a) && answers(a, e),
    ensures
        commit_valid(commit_next(s, e)),
        0 <= commit_rank(commit_next(s, e)) < commit_rank(s),
{
    if let CommitPhaseView::Prewriting { index, attempt } = s.phase {
        let prewritten = keys_of(s.writes).take(index as int);
        lemma_filter_len(s.locked_keys, |k: Seq<u8>| !prewritten.contains(k));
    }
}

proof fn lemma_filter_len(keys: Seq<Seq<u8>>, keep: spec_fn(Seq<u8>) -> bool)
    ensures
        keys.filter(keep).len() <= keys.len(),
    decreases keys.len(),
{
    reveal(Seq::filter);
    if keys.len() > 0 {
        lemma_filter_len(keys.drop_last(), keep);
    }
}

// ---- The course of a commit ----

/// The state of a commit after a series of events.
pub open spec fn commit_after(s: CommitView, events: Seq<Event>) -> CommitView
    decreases events.len(),
{
    if events.len() == 0 {
        s
    } else {
        commit_next(commit_after(s, events.drop_last()), events.last())
    }
}

/// The keys whose prewrite the store has acknowledged, in order.
pub open spec fn prewritten_keys(s: CommitView, events: Seq<Event>) -> Seq<Seq<u8>>
    decreases events.len(),
{
    if events.len() == 0 {
        Seq::empty()
    } else {
        let before = commit_after(s, events.drop_last());
        let keys = prewritten_keys(s, events.drop_last());
        match (commit_pending(before), events.last()) {
            (Some(ActionView::Prewrite { key, .. }), Event::Prewrite(Ok(_))) => keys.push(key),
            _ => keys,
        }
    }
}

/// The keys whose commit the store has acknowledged, in order.
pub open spec fn committed_keys(s: CommitView, events: Seq<Event>) -> Seq<Seq<u8>>
    decreases events.len(),
{
    if events.len() == 0 {
        Seq::empty()
    } else {
        let before = commit_after(s, events.drop_last());
        let keys = committed_keys(s, events.drop_last());
        match (commit_pending(before), events.last()) {
            (Some(ActionView::Commit { key, .. }), Event::Commit(Ok(response))) => if response.ok {
                keys.push(key)
            } else {
                keys
            },
            _ => keys,
        }
    }
}

/// The keys that the store has been asked to roll back, in order.
pub open spec fn rolled_back_keys(s: CommitView, events: Seq<Event>) -> Seq<Seq<u8>>
    decreases events.len(),
{
    if events.len() == 0 {
        Seq::empty()
    } else {
        let before = commit_after(s, events.drop_last());
        let keys = rolled_back_keys(s, events.drop_last());
        match (commit_pending(before), events.last()) {
            (Some(ActionView::Rollback { key, .. }), Event::Rollback(_)) => keys.push(key),
            _ => keys,
        }
    }
}

/// Putting the primary first reorders the writes and changes nothing else.
pub proof fn lemma_primary_first(writes: Seq<WriteView>, primary: Seq<u8>)
    ensures
        primary_first(writes, primary).len() == writes.len(),
        forall|i: int|
            0 <= i < writes.len() ==> primary_first(writes, primary).contains(#[trigger] writes[i]),
        forall|i: int|
            0 <= i < writes.len() ==> writes.contains(#[trigger] primary_first(writes, primary)[i]),
        keys_distinct(writes) ==> keys_distinct(primary_first(writes, primary)),
        keys_of(writes).contains(primary) ==> primary_first(writes, primary)[0].0 == primary,
        !keys_of(writes).contains(primary) ==> primary_first(writes, primary) == writes,
        keys_distinct(writes) ==> forall|i: int|
            0 < i < writes.len() && writes[i].0 != primary ==> #[trigger] primary_first(
                writes,
                primary,
            )[i] == writes[i],
{
    let out = primary_first(writes, primary);
    if exists|i: int| is_place_of(writes, primary, i) {
        let p = choose|i: int| is_place_of(writes, primary, i);
        assert(is_place_of(writes, primary, p));
        assert(keys_of(writes)[p] == primary);
        assert forall|i: int| 0 <= i < writes.len() implies out.contains(#[trigger] writes[i]) by {
            let j = if i == 0 {
                p
            } else if i == p {
                0
            } else {
                i
            };
            assert(out[j] == writes[i]);
        }
        assert forall|i: int| 0 <= i < writes.len() implies writes.contains(#[trigger] out[i]) by {
            let j = if i == p {
                0
            } else if i == 0 {
                p
            } else {
                i
            };
            assert(writes[j] == out[i]);
        }
        if keys_distinct(writes) {
            assert forall|i: int, j: int| 0 <= i < j < out.len() implies (#[trigger] out[i]).0 != (
            #[trigger] out[j]).0 by {
                let oi = if i == p {
                    0
                } else if i == 0 {
                    p
                } else {
                    i
                };
                let oj = if j == p {
                    0
                } else if j == 0 {
                    p
                } else {
                    j
                };
                assert(out[i] == writes[oi] && out[j] == writes[oj] && oi != oj);
                if oi < oj {
                    assert(writes[oi].0 != writes[oj].0);
                } else {
                    assert(writes[oj].0 != writes[oi].0);
                }
            }
        }
    } else {
        assert forall|i: int| 0 <= i < writes.len() implies out.contains(#[trigger] writes[i]) by {
            assert(out[i] == writes[i]);
        }
        if keys_of(writes).contains(primary) {
            let i = choose|i: int| 0 <= i < writes.len() && keys_of(writes)[i] == primary;
            let p = lemma_first_place(writes, primary, i);
            assert(is_place_of(writes, primary, p));
        }
    }
}

proof fn lemma_first_place(writes: Seq<WriteView>, key: Seq<u8>, i: int) -> (p: int)
    requires
        0 <= i < writes.len(),
        writes[i].0 == key,
    ensures
        is_place_of(writes, key, p),
    decreases i,
{
    if exists|j: int| 0 <= j < i && (#[trigger] writes[j]).0 == key {
        let j = choose|j: int| 0 <= j < i && (#[trigger] writes[j]).0 == key;
        lemma_first_place(writes, key, j)
    } else {
        i
    }
}

/// What the acknowledgements are in each phase of a commit of `writes`.
spec fn commit_history(
    s: CommitView,
    start: CommitView,
    prewritten: Seq<Seq<u8>>,
    committed: Seq<Seq<u8>>,
    rolled_back: Seq<Seq<u8>>,
) -> bool {
    let keys = keys_of(start.writes);
    let ordered = primary_first(start.writes, start.primary);
    &&& s.start_ts == start.start_ts
    &&& s.primary == start.primary
    &&& s.locked_keys == start.locked_keys
    &&& match s.phase {
        CommitPhaseView::Prewriting { index, .. } | CommitPhaseView::Waiting { index, .. } => {
            &&& s.writes == start.writes
            &&& index < keys.len()
            &&& prewritten == keys.take(index as int)
            &&& committed.len() == 0
            &&& rolled_back.len() == 0
        },
        CommitPhaseView::AwaitingTimestamp => {
            &&& s.writes == start.writes
            &&& prewritten == keys
            &&& committed.len() == 0
            &&& rolled_back.len() == 0
        },
        CommitPhaseView::Committing { index, .. } => {
            &&& s.writes == ordered
            &&& index < keys.len()
            &&& prewritten == keys
            &&& committed == keys_of(ordered).take(index as int)
            &&& rolled_back.len() == 0
        },
        CommitPhaseView::RollingBack { keys: releasing, index, outcome } => {
            &&& index < releasing.len()
            &&& outcome != Ok::<bool, Error>(true)
            &&& rolled_back == releasing.take(index as int)
            &&& forall|k: Seq<u8>| #[trigger]
                prewritten.contains(k) ==> committed.contains(k) || releasing.contains(k)
        },
        CommitPhaseView::Done(outcome) => if outcome == Ok::<bool, Error>(true) {
            &&& prewritten == keys
            &&& committed == keys_of(ordered)
            &&& rolled_back.len() == 0
        } else {
            forall|k: Seq<u8>| #[trigger]
                prewritten.contains(k) ==> committed.contains(k) || rolled_back.contains(k)
        },
    }
}

proof fn lemma_commit_history(start: CommitView, events: Seq<Event>)
    requires
        start.writes.len() > 0,
        start.phase == (CommitPhaseView::Prewriting { index: 0, attempt: 0 }),
    ensures
        commit_history(
            commit_after(start, events),
            start,
            prewritten_keys(start, events),
            committed_keys(start, events),
            rolled_back_keys(start, events),
        ),
    decreases events.len(),
{
    let keys = keys_of(start.writes);
    let ordered = primary_first(start.writes, start.primary);
    lemma_primary_first(start.writes, start.primary);
    if events.len() == 0 {
        assert(keys.take(0) =~= Seq::<Seq<u8>>::empty());
    } else {
        let rest = events.drop_last();
        let e = events.last();
        lemma_commit_history(start, rest);
        let s = commit_after(start, rest);
        let pre = prewritten_keys(start, rest);
        let com = committed_keys(start, rest);
        let rol = rolled_back_keys(start, rest);
        if rol.len() == 0 {
            assert(rol =~= Seq::<Seq<u8>>::empty());
        }
        if com.len() == 0 {
            assert(com =~= Seq::<Seq<u8>>::empty());
        }
        assert(keys_of(ordered).take(0) =~= Seq::<Seq<u8>>::empty());
        match s.phase {
            CommitPhaseView::Prewriting { index, .. } => {
                assert(keys.take(index as int + 1) =~= keys.take(index as int).push(
                    keys[index as int],
                ));
                assert(keys.take(keys.len() as int) =~= keys);
                if e is Prewrite {
                    if let Event::Prewrite(Err(error)) = e {
                        let releasing = keys_to_release(s, index);
                        assert forall|k: Seq<u8>| #[trigger] pre.contains(
                            k,
                        ) implies releasing.contains(k) by {
                            let j = choose|j: int| 0 <= j < pre.len() && pre[j] == k;
                            assert(releasing[j] == k);
                        }
                        assert(releasing.take(0) =~= Seq::<Seq<u8>>::empty());
                        if releasing.len() == 0 {
                            assert(forall|k: Seq<u8>| !#[trigger] pre.contains(k));
                        }
                    }
                }
            },
            CommitPhaseView::AwaitingTimestamp => {
                assert(keys.take(0) =~= Seq::<Seq<u8>>::empty());
            },
            CommitPhaseView::Committing { commit_ts, index } => {
                let oks = keys_of(ordered);
                assert(oks.take(index as int + 1) =~= oks.take(index as int).push(
                    oks[index as int],
                ));
                assert(oks.take(oks.len() as int) =~= oks);
                let releasing = oks.skip(index as int);
                assert(releasing.take(0) =~= Seq::<Seq<u8>>::empty());
                assert forall|k: Seq<u8>| #[trigger] pre.contains(k) implies com.contains(k)
                    || releasing.contains(k) by {
                    let j = choose|j: int| 0 <= j < keys.len() && keys[j] == k;
                    assert(ordered.contains(start.writes[j]));
                    let i = choose|i: int| 0 <= i < ordered.len() && ordered[i] == start.writes[j];
                    assert(oks[i] == k);
                    if i < index {
                        assert(com[i] == k);
                    } else {
                        assert(releasing[i - index] == k);
                    }
                }
            },
            CommitPhaseView::RollingBack { keys: releasing, index, outcome } => {
                assert(releasing.take(index as int + 1) =~= releasing.take(index as int).push(
                    releasing[index as int],
                ));
                assert(releasing.take(releasing.len() as int) =~= releasing);
            },
            _ => {},
        }
    }
}

/// Two-phase commit: a transaction with writes reports success only after the store has
/// acknowledged the prewrite of every key and then the commit of every key, the primary first
/// where it is among them, and without rolling anything back.
pub proof fn lemma_success_means_all_committed(
    start_ts: u64,
    primary: Seq<u8>,
    writes: Seq<WriteView>,
    locked_keys: Seq<Seq<u8>>,
    events: Seq<Event>,
)
    requires
        writes.len() > 0,
    ensures
        ({
            let start = commit_start(start_ts, primary, writes, locked_keys);
            commit_after(start, events).phase == CommitPhaseView::Done(Ok(true)) ==> {
                &&& prewritten_keys(start, events) == keys_of(writes)
                &&& committed_keys(start, events) == keys_of(primary_first(writes, primary))
                &&& keys_of(writes).contains(primary) ==> committed_keys(start, events)[0]
                    == primary
                &&& rolled_back_keys(start, events).len() == 0
            }
        }),
{
    let start = commit_start(start_ts, primary, writes, locked_keys);
    lemma_commit_history(start, events);
    lemma_primary_first(writes, primary);
}

/// No commit is sent before every prewrite has been acknowledged, and none of a secondary
/// before that of the primary, where the primary is among the writes.
pub proof fn lemma_commit_only_after_prewrites(
    start_ts: u64,
    primary: Seq<u8>,
    writes: Seq<WriteView>,
    locked_keys: Seq<Seq<u8>>,
    events: Seq<Event>,
)
    requires
        writes.len() > 0,
    ensures
        ({
            let start = commit_start(start_ts, primary, writes, locked_keys);
            let s = commit_after(start, events);
            commit_pending(s) matches Some(ActionView::Commit { key, .. }) ==> {
                &&& prewritten_keys(start, events) == keys_of(writes)
                &&& keys_of(writes).contains(primary) && key != primary ==> committed_keys(
                    start,
                    events,
                ).contains(primary)
            }
        }),
{
    let start = commit_start(start_ts, primary, writes, locked_keys);
    let s = commit_after(start, events);
    lemma_commit_history(start, events);
    lemma_primary_first(writes, primary);
    if let CommitPhaseView::Committing { commit_ts, index } = s.phase {
        let ordered = primary_first(writes, primary);
        if keys_of(writes).contains(primary) && ordered[index as int].0 != primary {
            assert(committed_keys(start, events)[0] == primary);
        }
    }
}

/// A commit that fails, or ends in an error, asks the store to roll back every key that was
/// prewritten and not committed.
pub proof fn lemma_failure_means_rolled_back(
    start_ts: u64,
    primary: Seq<u8>,
    writes: Seq<WriteView>,
    locked_keys: Seq<Seq<u8>>,
    events: Seq<Event>,
)
    requires
        writes.len() > 0,
    ensures
        ({
            let start = commit_start(start_ts, primary, writes, locked_keys);
            commit_after(start, events).phase matches CommitPhaseView::Done(outcome) && outcome
                != Ok::<bool, Error>(true) ==> forall|k: Seq<u8>| #[trigger]
                prewritten_keys(start, events).contains(k) ==> committed_keys(
                    start,
                    events,
                ).contains(k) || rolled_back_keys(start, events).contains(k)
        }),
{
    lemma_commit_history(commit_start(start_ts, primary, writes, locked_keys), events);
}

/// When a prewrite fails for good, what is rolled back are the keys prewritten so far and the
/// keys locked early, and nothing else.
pub proof fn lemma_failed_prewrite_releases_locks(s: CommitView, index: nat, key: Seq<u8>)
    requires
        index <= s.writes.len(),
    ensures
        keys_to_release(s, index).contains(key) <==> keys_of(s.writes).take(index as int).contains(
            key,
        ) || s.locked_keys.contains(key),
{
    let prewritten = keys_of(s.writes).take(index as int);
    let missing = |k: Seq<u8>| !prewritten.contains(k);
    let extra = s.locked_keys.filter(missing);
    let all = prewritten + extra;
    lemma_filter_contains(s.locked_keys, missing, key);
    if prewritten.contains(key) {
        let j = choose|j: int| 0 <= j < prewritten.len() && prewritten[j] == key;
        assert(all[j] == key);
    }
    if extra.contains(key) {
        let j = choose|j: int| 0 <= j < extra.len() && extra[j] == key;
        assert(all[prewritten.len() + j] == key);
    }
    if all.contains(key) {
        let j = choose|j: int| 0 <= j < all.len() && all[j] == key;
        if j < prewritten.len() {
            assert(prewritten[j] == key);
        } else {
            assert(extra[j - prewritten.len()] == key);
        }
    }
}

proof fn lemma_filter_contains(
    keys: Seq<Seq<u8>>,
    keep: spec_fn(Seq<u8>) -> bool,
    key: Seq<u8>,
)
    ensures
        keys.filter(keep).contains(key) <==> keys.contains(key) && keep(key),
    decreases keys.len(),
{
    reveal(Seq::filter);
    if keys.len() > 0 {
        let rest = keys.drop_last();
        lemma_filter_contains(rest, keep, key);
        let out = rest.filter(keep);
        let last = keys.last();
        if rest.contains(key) {
            let j = choose|j: int| 0 <= j < rest.len() && rest[j] == key;
            assert(keys[j] == key);
        }
        if keys.contains(key) {
            let j = choose|j: int| 0 <= j < keys.len() && keys[j] == key;
            if j < rest.len() {
                assert(rest[j] == key);
            }
        }
        if last == key {
            assert(keys[keys.len() - 1] == key);
        }
        if keep(last) {
            let more = out.push(last);
            if out.contains(key) {
                let j = choose|j: int| 0 <= j < out.len() && out[j] == key;
                assert(more[j] == key);
            }
            assert(more[out.len() as int] == last);
            if more.contains(key) {
                let j = choose|j: int| 0 <= j < more.len() && more[j] == key;
                if j < out.len() {
                    assert(out[j] == key);
                }
            }
        }
    }
}

// ---- The course of a lock acquisition ----

/// The state of an acquisition and of its client after a series of events.
pub open spec fn lock_after(s: LockView, client: ClientView, events: Seq<Event>) -> (
    LockView,
    ClientView,
)
    decreases events.len(),
{
    if events.len() == 0 {
        (s, client)
    } else {
        let (before, c) = lock_after(s, client, events.drop_last());
        lock_next(before, c, events.last())
    }
}

/// The keys that an acquisition has asked the store to roll back, in order.
pub open spec fn released_keys(s: LockView, client: ClientView, events: Seq<Event>) -> Seq<Seq<u8>>
    decreases events.len(),
{
    if events.len() == 0 {
        Seq::empty()
    } else {
        let before = lock_after(s, client, events.drop_last()).0;
        let keys = released_keys(s, client, events.drop_last());
        match (lock_pending(before), events.last()) {
            (Some(ActionView::Rollback { key, .. }), Event::Rollback(_)) => keys.push(key),
            _ => keys,
        }
    }
}

spec fn lock_history(
    s: LockView,
    now: ClientView,
    start: LockView,
    client: ClientView,
    released: Seq<Seq<u8>>,
) -> bool {
    &&& s.key == start.key
    &&& s.start_ts == start.start_ts
    &&& s.primary == start.primary
    &&& s.value == start.value
    &&& match s.phase {
        LockPhaseView::AwaitingTimestamp
        | LockPhaseView::Locking { .. }
        | LockPhaseView::Waiting { .. } => now == client && released.len() == 0,
        LockPhaseView::Aborting { keys, index, .. } => {
            &&& start.value is Some
            &&& now == client.abort()
            &&& keys == client.locked_keys
            &&& index < keys.len()
            &&& released == keys.take(index as int)
        },
        LockPhaseView::Done(Ok(_)) => {
            &&& released.len() == 0
            &&& now == match start.value {
                Some(value) => client.with_lock(start.key).with_write(start.key, value),
                None => client.with_lock(start.key),
            }
        },
        LockPhaseView::Done(Err(_)) => match start.value {
            Some(_) => now == client.abort() && released == client.locked_keys,
            None => now == client && released.len() == 0,
        },
    }
}

proof fn lemma_lock_history(start: LockView, client: ClientView, events: Seq<Event>)
    requires
        start.phase is AwaitingTimestamp,
    ensures
        ({
            let (s, now) = lock_after(start, client, events);
            lock_history(s, now, start, client, released_keys(start, client, events))
        }),
    decreases events.len(),
{
    if events.len() > 0 {
        let rest = events.drop_last();
        lemma_lock_history(start, client, rest);
        let released = released_keys(start, client, rest);
        let s = lock_after(start, client, rest).0;
        if released.len() == 0 {
            assert(released =~= Seq::<Seq<u8>>::empty());
        }
        assert(client.locked_keys.take(0) =~= Seq::<Seq<u8>>::empty());
        if client.locked_keys.len() == 0 {
            assert(client.locked_keys =~= Seq::<Seq<u8>>::empty());
        }
        if let LockPhaseView::Aborting { keys, index, error } = s.phase {
            assert(keys.take(index as int + 1) =~= keys.take(index as int).push(
                keys[index as int],
            ));
            assert(keys.take(keys.len() as int) =~= keys);
        }
    }
}

pub(crate) proof fn lemma_lock_released(start: LockView, client: ClientView, events: Seq<Event>)
    requires
        start.phase is AwaitingTimestamp,
    ensures
        lock_after(start, client, events).0.phase matches LockPhaseView::Done(outcome) && outcome
            is Err && start.value is Some ==> released_keys(start, client, events)
            == client.locked_keys,
{
    lemma_lock_history(start, client, events);
}

/// A pessimistic `set` that succeeds has locked its key and buffered its value. One that fails
/// aborts the transaction: the store has been asked to roll back every key locked so far.
pub proof fn lemma_pessimistic_set(
    client: ClientView,
    key: Seq<u8>,
    value: Seq<u8>,
    events: Seq<Event>,
)
    ensures
        ({
            let start = lock_start(client, key, Some(value), LockPhaseView::AwaitingTimestamp);
            let (s, now) = lock_after(start, client, events);
            &&& s.phase matches LockPhaseView::Done(Ok(_)) ==> {
                &&& now == client.with_lock(key).with_write(key, value)
                &&& released_keys(start, client, events).len() == 0
            }
            &&& s.phase matches LockPhaseView::Done(Err(_)) ==> {
                &&& now == client.abort()
                &&& released_keys(start, client, events) == client.locked_keys
            }
        }),
{
    lemma_lock_history(
        lock_start(client, key, Some(value), LockPhaseView::AwaitingTimestamp),
        client,
        events,
    );
}

/// A `lock_for_update` that succeeds has locked its key; the first key locked is the primary.
/// One that fails leaves the transaction as it was.
pub proof fn lemma_lock_for_update(client: ClientView, key: Seq<u8>, events: Seq<Event>)
    requires
        client.valid(),
    ensures
        ({
            let start = lock_start(client, key, None, LockPhaseView::AwaitingTimestamp);
            let (s, now) = lock_after(start, client, events);
            &&& s.phase matches LockPhaseView::Done(Ok(_)) ==> {
                &&& now == client.with_lock(key)
                &&& now.primary == Some(
                    match client.primary {
                        Some(primary) => primary,
                        None => key,
                    },
                )
            }
            &&& s.phase matches LockPhaseView::Done(Err(_)) ==> now == client
            &&& released_keys(start, client, events).len() == 0
        }),
{
    lemma_lock_history(
        lock_start(client, key, None, LockPhaseView::AwaitingTimestamp),
        client,
        events,
    );
}

// ---- Keys are locked, and rolled back, once ----

/// A client stays valid: whatever it does, no key is among its locked keys twice, and its
/// primary is the first of them.
pub proof fn lemma_clients_stay_valid(
    client: ClientView,
    s: LockView,
    e: Event,
    key: Seq<u8>,
    value: Seq<u8>,
)
    requires
        client.valid(),
    ensures
        ClientView::idle(client.mode, client.start_ts).valid(),
        client.with_write(key, value).valid(),
        client.with_lock(key).valid(),
        client.abort().valid(),
        lock_next(s, client, e).1.valid(),
{
}

/// A transaction asks the store to roll back each key at most once, both when a `set` fails and
/// when a commit ends without success.
pub proof fn lemma_keys_are_rolled_back_once(
    client: ClientView,
    key: Seq<u8>,
    value: Seq<u8>,
    events: Seq<Event>,
)
    requires
        client.valid(),
    ensures
        rolled_back_keys(client.commit_op(), events).no_duplicates(),
        released_keys(
            lock_start(client, key, Some(value), LockPhaseView::AwaitingTimestamp),
            client,
            events,
        ).no_duplicates(),
{
    lemma_coalesced(client.writes);
    assert(client.locked_keys.take(0) =~= Seq::<Seq<u8>>::empty());
    lemma_rolled_back_once(client.commit_op(), events);
    let start = lock_start(client, key, Some(value), LockPhaseView::AwaitingTimestamp);
    lemma_lock_history(start, client, events);
}

/// The keys being rolled back differ from each other, and so do those rolled back already.
spec fn rolls_back_once(s: CommitView, rolled_back: Seq<Seq<u8>>) -> bool {
    &&& keys_distinct(s.writes)
    &&& s.locked_keys.no_duplicates()
    &&& rolled_back.no_duplicates()
    &&& match s.phase {
        CommitPhaseView::RollingBack { keys, index, .. } => {
            keys.no_duplicates() && index < keys.len() && rolled_back == keys.take(index as int)
        },
        CommitPhaseView::Done(_) => true,
        _ => commit_valid(s) && rolled_back.len() == 0,
    }
}

proof fn lemma_rolled_back_once(start: CommitView, events: Seq<Event>)
    requires
        rolls_back_once(start, Seq::empty()),
    ensures
        rolls_back_once(commit_after(start, events), rolled_back_keys(start, events)),
    decreases events.len(),
{
    if events.len() > 0 {
        let rest = events.drop_last();
        lemma_rolled_back_once(start, rest);
        let s = commit_after(start, rest);
        let e = events.last();
        let rolled_back = rolled_back_keys(start, rest);
        lemma_primary_first(s.writes, s.primary);
        if rolled_back.len() == 0 {
            assert(rolled_back =~= Seq::<Seq<u8>>::empty());
        }
        assert forall|keys: Seq<Seq<u8>>| #[trigger] keys.take(0) == Seq::<Seq<u8>>::empty() by {
            assert(keys.take(0) =~= Seq::<Seq<u8>>::empty());
        }
        assert(keys_of(s.writes).no_duplicates()) by {
            assert forall|i: int, j: int|
                0 <= i < j < s.writes.len() implies #[trigger] keys_of(s.writes)[i]
                != #[trigger] keys_of(s.writes)[j] by {
                assert(s.writes[i].0 != s.writes[j].0);
            }
        }
        match s.phase {
            CommitPhaseView::Prewriting { index, .. } => {
                lemma_commit_valid_next(s, e);
                lemma_keys_to_release_differ(s, index);
            },
            CommitPhaseView::RollingBack { keys, index, .. } => {
                assert(keys.take(index as int + 1) =~= keys.take(index as int).push(
                    keys[index as int],
                ));
                assert(keys.take(keys.len() as int) =~= keys);
            },
            _ => {
                lemma_commit_valid_next(s, e);
            },
        }
    }
}

/// An event that answers nothing changes nothing, and any other keeps a commit valid.
pub(crate) proof fn lemma_commit_valid_next(s: CommitView, e: Event)
    requires
        commit_valid(s),
    ensures
        commit_valid(commit_next(s, e)),
{
    if let Some(a) = commit_pending(s) {
        if answers(a, e) {
            lemma_commit_terminates(s, e);
        }
    }
}

proof fn lemma_keys_to_release_differ(s: CommitView, index: nat)
    requires
        keys_of(s.writes).no_duplicates(),
        s.locked_keys.no_duplicates(),
        index <= s.writes.len(),
    ensures
        keys_to_release(s, index).no_duplicates(),
{
    let prewritten = keys_of(s.writes).take(index as int);
    let missing = |k: Seq<u8>| !prewritten.contains(k);
    let extra = s.locked_keys.filter(missing);
    lemma_filter_no_duplicates(s.locked_keys, missing);
    assert forall|i: int, j: int|
        0 <= i < j < (prewritten + extra).len() implies #[trigger] (prewritten + extra)[i]
        != #[trigger] (prewritten + extra)[j] by {
        if i < prewritten.len() && j >= prewritten.len() {
            let k = extra[j - prewritten.len()];
            assert(extra.contains(k));
            lemma_filter_contains(s.locked_keys, missing, k);
            assert(prewritten.contains(prewritten[i]));
        }
    }
}

proof fn lemma_filter_no_duplicates(keys: Seq<Seq<u8>>, keep: spec_fn(Seq<u8>) -> bool)
    requires
        keys.no_duplicates(),
    ensures
        keys.filter(keep).no_duplicates(),
    decreases keys.len(),
{
    reveal(Seq::filter);
    if keys.len() > 0 {
        let rest = keys.drop_last();
        lemma_filter_no_duplicates(rest, keep);
        lemma_filter_contains(rest, keep, keys.last());
        let out = rest.filter(keep);
        assert forall|j: int| 0 <= j < out.len() implies #[trigger] out[j] != keys.last() by {
            assert(out.contains(out[j]));
        }
    }
}

// ---- Aborted transactions ----

/// An aborted transaction stays aborted, whatever it writes or locks and whatever it hears;
/// only `begin` starts afresh.
pub proof fn lemma_aborted_until_begin(
    client: ClientView,
    s: LockView,
    e: Event,
    key: Seq<u8>,
    value: Seq<u8>,
)
    requires
        client.aborted,
    ensures
        client.with_write(key, value).aborted,
        client.with_lock(key).aborted,
        lock_next(s, client, e).1.aborted,
{
}

/// The commit of an aborted transaction never reports success. All that it asks of the store is
/// to roll back the keys that are still locked, and when it is over it has asked for each.
pub proof fn lemma_aborted_commit_fails(client: ClientView, events: Seq<Event>)
    requires
        client.aborted,
    ensures
        ({
            let start = client.commit_op();
            let s = commit_after(start, events);
            &&& commit_pending(s) matches Some(a) ==> a is Rollback
            &&& s.phase matches CommitPhaseView::Done(outcome) ==> {
                &&& outcome == Ok::<bool, Error>(false)
                &&& rolled_back_keys(start, events) == client.locked_keys
            }
        }),
{
    lemma_aborted_history(client, events);
}

proof fn lemma_aborted_history(client: ClientView, events: Seq<Event>)
    requires
        client.aborted,
    ensures
        ({
            let start = client.commit_op();
            let released = rolled_back_keys(start, events);
            match commit_after(start, events).phase {
                CommitPhaseView::RollingBack { keys, index, outcome } => {
                    &&& keys == client.locked_keys
                    &&& index < keys.len()
                    &&& outcome == Ok::<bool, Error>(false)
                    &&& released == keys.take(index as int)
                },
                CommitPhaseView::Done(outcome) => {
                    outcome == Ok::<bool, Error>(false) && released == client.locked_keys
                },
                _ => false,
            }
        }),
    decreases events.len(),
{
    let start = client.commit_op();
    if events.len() == 0 {
        assert(client.locked_keys.take(0) =~= Seq::<Seq<u8>>::empty());
        if client.locked_keys.len() == 0 {
            assert(client.locked_keys =~= Seq::<Seq<u8>>::empty());
        }
    } else {
        let rest = events.drop_last();
        lemma_aborted_history(client, rest);
        if let CommitPhaseView::RollingBack { keys, index, outcome } = commit_after(
            start,
            rest,
        ).phase {
            assert(keys.take(index as int + 1) =~= keys.take(index as int).push(
                keys[index as int],
            ));
            assert(keys.take(keys.len() as int) =~= keys);
        }
    }
}

} // verus!
