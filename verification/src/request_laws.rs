//! What each request to the store answers and does, cell by cell.

use vstd::prelude::*;

use crate::action::{ActionView, Event};
use crate::cell::{KeyView, ValueView};
use crate::error::{Error, ErrorKind};
use crate::lock::{decoded_lock, lemma_lock_round_trip};
use crate::msg::{
    CommitResponse, GetResponse, PessimisticLockResponse, PrewriteResponse, RollbackResponse,
};
use crate::protocol::{applied, replies};
use crate::storage::{blocked, cleared, committed_after, lock_ts, snapshot};
use crate::store_laws::{lemma_lock_ts, lemma_requests_keep_table_well_formed, well_formed};
use crate::table::TableView;
use crate::versions::{earliest_pointer, latest, lemma_earliest_pointer, lemma_latest, points_to};

verus! {

/// `key` has a lock that a request at `now` has to respect: it was taken at most 100 ms before,
/// in nanoseconds.
pub open spec fn has_live_lock(t: TableView, key: Seq<u8>, now: u64) -> bool {
    exists|held: u64| #[trigger] t.lock.contains_key((key, held)) && now <= held + 100_000_000
}

/// `key` has been committed after `now`.
pub open spec fn has_later_commit(t: TableView, key: Seq<u8>, now: u64) -> bool {
    exists|w: u64| #[trigger] t.write.contains_key((key, w)) && w > now
}

/// The lock cell for `primary`; the first byte is 1 for a pessimistic lock and 0 for a prewrite.
pub open spec fn lock_cell(first: u8, primary: Seq<u8>) -> ValueView {
    ValueView::Bytes(seq![first] + primary)
}

/// `t` without any lock on `key`, and without the data under such a lock.
pub open spec fn freed(t: TableView, key: Seq<u8>) -> TableView {
    TableView {
        lock: Map::new(|r: KeyView| t.lock.contains_key(r) && r.0 != key, |r: KeyView| t.lock[r]),
        data: Map::new(
            |r: KeyView| t.data.contains_key(r) && !(r.0 == key && t.lock.contains_key(r)),
            |r: KeyView| t.data[r],
        ),
        write: t.write,
    }
}

/// `t` without the lock on `key` at `ts` and without the data under it.
pub open spec fn dropped(t: TableView, key: Seq<u8>, ts: u64) -> TableView {
    TableView {
        lock: t.lock.remove((key, ts)),
        data: t.data.remove((key, ts)),
        write: t.write,
    }
}

proof fn lemma_live_lock(t: TableView, key: Seq<u8>, now: u64)
    requires
        well_formed(t),
    ensures
        has_live_lock(t, key, now) <==> blocked(t, key, now),
        has_later_commit(t, key, now) <==> committed_after(t, key, now),
        cleared(t, key) == freed(t, key),
{
    lemma_lock_ts(t, key);
    if let Some(ts) = lock_ts(t, key) {
        assert(t.lock.contains_key((key, ts)));
    }
    let u = cleared(t, key);
    assert forall|r: KeyView| #[trigger] t.lock.contains_key(r) && r.0 == key implies lock_ts(t, key)
        == Some(r.1) by {
        assert(t.lock.contains_key((key, r.1)));
    }
    assert(u.lock =~= freed(t, key).lock);
    assert(u.data =~= freed(t, key).data);
}

/// A prewrite is granted exactly if the transaction holds the pessimistic lock on the key under
/// the same primary, or if nobody holds a live lock on the key and nobody has committed it after
/// the transaction started. Granted, it leaves one lock on the key, a prewrite lock of this
/// transaction under the primary that was named, and the value under it. Refused by a live lock
/// it changes nothing; refused by a later commit it takes away an abandoned lock.
pub proof fn lemma_prewrite(
    t: TableView,
    key: Seq<u8>,
    value: Seq<u8>,
    start_ts: u64,
    primary: Seq<u8>,
    reply: Result<PrewriteResponse, Error>,
)
    requires
        well_formed(t),
        replies(
            t,
            ActionView::Prewrite { key, value, start_ts, primary },
            Event::Prewrite(reply),
        ),
    ensures
        ({
            let u = applied(t, ActionView::Prewrite { key, value, start_ts, primary });
            let named = if primary.len() == 0 {
                key
            } else {
                primary
            };
            let own = t.lock.contains_key((key, start_ts)) && t.lock[(key, start_ts)] == lock_cell(
                1,
                named,
            );
            let live = has_live_lock(t, key, start_ts);
            &&& reply is Ok <==> own || (!live && !has_later_commit(t, key, start_ts))
            &&& reply is Ok ==> u == (TableView {
                lock: freed(t, key).lock.insert((key, start_ts), lock_cell(0, named)),
                data: freed(t, key).data.insert((key, start_ts), ValueView::Bytes(value)),
                write: t.write,
            })
            &&& reply matches Err(e) ==> {
                &&& e.kind == ErrorKind::Other
                &&& live ==> e.message@ == "lock conflict"@ && u == t
                &&& !live ==> e.message@ == "write conflict"@ && u == freed(t, key)
            }
        }),
{
    let a = ActionView::Prewrite { key, value, start_ts, primary };
    let u = applied(t, a);
    let named = if primary.len() == 0 {
        key
    } else {
        primary
    };
    lemma_lock_ts(t, key);
    lemma_live_lock(t, key, start_ts);
    lemma_lock_round_trip(named, true);
    lemma_own_cell(t, key, start_ts, named);
    if reply is Ok {
        assert(u.lock =~= freed(t, key).lock.insert((key, start_ts), lock_cell(0, named)));
        assert(u.data =~= freed(t, key).data.insert((key, start_ts), ValueView::Bytes(value)));
    }
}

/// What the cell of a lock says.
pub(crate) proof fn lemma_own_cell(t: TableView, key: Seq<u8>, ts: u64, primary: Seq<u8>)
    ensures
        t.lock[(key, ts)] == lock_cell(1, primary) <==> decoded_lock(t.lock[(key, ts)]) == Some(
            (primary, true),
        ),
{
    lemma_lock_round_trip(primary, true);
    if let ValueView::Bytes(bytes) = t.lock[(key, ts)] {
        if bytes.len() > 0 {
            assert(bytes =~= seq![bytes[0]] + bytes.drop_first());
        }
    }
    assert((seq![1u8] + primary).drop_first() =~= primary);
}

/// A pessimistic lock is granted exactly if the transaction holds a lock on the key under the
/// same primary, in which case nothing changes, or if nobody holds a live lock on the key and
/// nobody has committed it after `for_update_ts`. Granted anew, it is the one lock on the key,
/// under the primary that was named.
pub proof fn lemma_pessimistic_lock(
    t: TableView,
    key: Seq<u8>,
    start_ts: u64,
    for_update_ts: u64,
    primary: Seq<u8>,
    reply: Result<PessimisticLockResponse, Error>,
)
    requires
        well_formed(t),
        replies(
            t,
            ActionView::PessimisticLock { key, start_ts, for_update_ts, primary },
            Event::PessimisticLock(reply),
        ),
    ensures
        ({
            let u = applied(
                t,
                ActionView::PessimisticLock { key, start_ts, for_update_ts, primary },
            );
            let named = if primary.len() == 0 {
                key
            } else {
                primary
            };
            let own = t.lock.contains_key((key, start_ts))
                && (t.lock[(key, start_ts)] matches ValueView::Bytes(b) && b.skip(1) == named);
            let live = has_live_lock(t, key, for_update_ts);
            &&& reply is Ok <==> own || (!live && !has_later_commit(t, key, for_update_ts))
            &&& reply is Ok && own ==> u == t
            &&& reply is Ok && !own ==> u == (TableView {
                lock: freed(t, key).lock.insert((key, start_ts), lock_cell(1, named)),
                ..freed(t, key)
            })
            &&& reply matches Err(e) ==> {
                &&& e.kind == ErrorKind::Other
                &&& live ==> e.message@ == "lock conflict"@ && u == t
                &&& !live ==> e.message@ == "write conflict"@ && u == freed(t, key)
            }
        }),
{
    let u = applied(t, ActionView::PessimisticLock { key, start_ts, for_update_ts, primary });
    let named = if primary.len() == 0 {
        key
    } else {
        primary
    };
    lemma_lock_ts(t, key);
    lemma_live_lock(t, key, for_update_ts);
    if t.lock.contains_key((key, start_ts)) {
        if let ValueView::Bytes(b) = t.lock[(key, start_ts)] {
            assert(b.len() > 0);
            assert(b.skip(1) =~= b.drop_first());
        }
    }
}

/// A commit is acknowledged exactly if the transaction has its lock on the key. It then leaves a
/// commit record that points to the data of the transaction, and takes the lock away; otherwise
/// nothing changes.
pub proof fn lemma_commit(
    t: TableView,
    key: Seq<u8>,
    value: Seq<u8>,
    start_ts: u64,
    commit_ts: u64,
    reply: Result<CommitResponse, Error>,
)
    requires
        replies(t, ActionView::Commit { key, value, start_ts, commit_ts }, Event::Commit(reply)),
    ensures
        ({
            let u = applied(t, ActionView::Commit { key, value, start_ts, commit_ts });
            &&& reply matches Ok(response)
            &&& response.ok <==> t.lock.contains_key((key, start_ts))
            &&& response.ok ==> u == (TableView {
                write: t.write.insert((key, commit_ts), ValueView::Timestamp(start_ts)),
                lock: t.lock.remove((key, start_ts)),
                data: t.data,
            })
            &&& !response.ok ==> u == t
        }),
{
}

/// A rollback takes away the lock of the transaction on the key and the data under it; without
/// the lock nothing changes.
pub proof fn lemma_rollback(
    t: TableView,
    key: Seq<u8>,
    start_ts: u64,
    reply: Result<RollbackResponse, Error>,
)
    requires
        replies(t, ActionView::Rollback { key, start_ts }, Event::Rollback(reply)),
    ensures
        ({
            let u = applied(t, ActionView::Rollback { key, start_ts });
            &&& reply is Ok
            &&& u == if t.lock.contains_key((key, start_ts)) {
                dropped(t, key, start_ts)
            } else {
                t
            }
        }),
{
}

/// `value` is what the commits of `key` up to `ts` show: the data that the latest of them points
/// to, and the empty value where there is none.
pub open spec fn shows(t: TableView, key: Seq<u8>, ts: u64, value: Seq<u8>) -> bool {
    if exists|c: u64| c <= ts && #[trigger] t.write.contains_key((key, c)) {
        exists|c: u64| #[trigger]
            latest_commit(t, key, ts, c) && match t.write[(key, c)] {
                ValueView::Timestamp(d) => if t.data.contains_key((key, d)) {
                    t.data[(key, d)] == ValueView::Bytes(value)
                } else {
                    value.len() == 0
                },
                ValueView::Bytes(_) => value.len() == 0,
            }
    } else {
        value.len() == 0
    }
}

/// `c` is the time of the latest commit of `key` up to `ts`.
pub open spec fn latest_commit(t: TableView, key: Seq<u8>, ts: u64, c: u64) -> bool {
    &&& c <= ts
    &&& t.write.contains_key((key, c))
    &&& forall|w: u64| w <= ts && #[trigger] t.write.contains_key((key, w)) ==> w <= c
}

/// `c` is the time of the first commit of `key` by the transaction that started at `start_ts`.
pub open spec fn first_commit(t: TableView, key: Seq<u8>, start_ts: u64, c: u64) -> bool {
    &&& t.write.contains_key((key, c)) && t.write[(key, c)] == ValueView::Timestamp(start_ts)
    &&& forall|w: u64| #[trigger]
        t.write.contains_key((key, w)) && t.write[(key, w)] == ValueView::Timestamp(start_ts) ==> c
            <= w
}

/// The transaction that started at `start_ts` has committed `key`.
pub open spec fn has_commit_of(t: TableView, key: Seq<u8>, start_ts: u64) -> bool {
    exists|c: u64| #[trigger]
        t.write.contains_key((key, c)) && t.write[(key, c)] == ValueView::Timestamp(start_ts)
}

/// `u` is `t` once a reader at `now` has dealt with the lock on `key`, taken at `held` and
/// holding the bytes `lock`, whose first byte tells its kind and whose rest is its primary.
pub open spec fn deals_with_lock(
    t: TableView,
    u: TableView,
    key: Seq<u8>,
    now: u64,
    held: u64,
    lock: Seq<u8>,
) -> bool {
    let primary = lock.skip(1);
    let abandoned = now > held + 100_000_000;
    if primary == key {
        u == if abandoned {
            dropped(t, key, held)
        } else {
            t
        }
    } else if has_commit_of(t, primary, held) {
        &&& u.data == t.data
        &&& u.lock == t.lock.remove((key, held))
        &&& lock[0] == 1 ==> u.write == t.write
        &&& lock[0] != 1 ==> exists|c: u64| #[trigger]
            first_commit(t, primary, held, c) && u.write == t.write.insert(
                (key, c),
                ValueView::Timestamp(held),
            )
    } else if !t.lock.contains_key((primary, held)) {
        u == dropped(t, key, held)
    } else {
        u == if abandoned {
            dropped(dropped(t, primary, held), key, held)
        } else {
            t
        }
    }
}

/// A get first deals with the lock on the key, if there is one. It then says that the key is
/// locked, if it still is, and otherwise answers with what the commits up to the snapshot show.
pub proof fn lemma_get(
    t: TableView,
    key: Seq<u8>,
    start_ts: u64,
    reply: Result<GetResponse, Error>,
)
    requires
        well_formed(t),
        replies(t, ActionView::Get { key, start_ts }, Event::Get(reply)),
    ensures
        ({
            let u = applied(t, ActionView::Get { key, start_ts });
            &&& (forall|held: u64| !#[trigger] t.lock.contains_key((key, held))) ==> u == t
            &&& forall|held: u64| #[trigger]
                t.lock.contains_key((key, held)) ==> (
                t.lock[(key, held)] matches ValueView::Bytes(lock) && lock.len() > 0
                    && deals_with_lock(t, u, key, start_ts, held, lock))
            &&& match reply {
                Ok(response) => {
                    &&& forall|held: u64| !#[trigger] u.lock.contains_key((key, held))
                    &&& shows(u, key, start_ts, response.value@)
                },
                Err(e) => {
                    &&& exists|held: u64| #[trigger] u.lock.contains_key((key, held))
                    &&& e.kind == ErrorKind::Other
                    &&& e.message@ == "key is locked"@
                },
            }
        }),
{
    let a = ActionView::Get { key, start_ts };
    let u = applied(t, a);
    lemma_lock_ts(t, key);
    lemma_requests_keep_table_well_formed(t, a);
    lemma_lock_ts(u, key);
    if let Some(held) = lock_ts(u, key) {
        assert(u.lock.contains_key((key, held)));
    }
    if let Some(held) = lock_ts(t, key) {
        assert(t.lock.contains_key((key, held)));
        let lock = t.lock[(key, held)]->Bytes_0;
        let primary = lock.skip(1);
        assert(primary =~= lock.drop_first());
        lemma_earliest_pointer(t.write, primary, held);
        if has_commit_of(t, primary, held) {
            let c = choose|c: u64| #[trigger]
                t.write.contains_key((primary, c)) && t.write[(primary, c)]
                    == ValueView::Timestamp(held);
            assert(points_to(t.write, primary, c, held));
            let first = earliest_pointer(t.write, primary, held)->0;
            assert forall|w: u64| #[trigger]
                t.write.contains_key((primary, w)) && t.write[(primary, w)]
                    == ValueView::Timestamp(held) implies first <= w by {
                assert(points_to(t.write, primary, w, held));
            }
            assert(first_commit(t, primary, held, first));
        } else {
            assert forall|c: u64| !#[trigger] points_to(t.write, primary, c, held) by {
                assert(!(t.write.contains_key((primary, c)) && t.write[(primary, c)]
                    == ValueView::Timestamp(held)));
            }
        }
        assert(deals_with_lock(t, u, key, start_ts, held, lock));
    }
    if let Ok(response) = reply {
        lemma_snapshot_shows(u, key, start_ts);
    }
}

/// The snapshot is what the commits show.
pub proof fn lemma_snapshot_shows(t: TableView, key: Seq<u8>, ts: u64)
    requires
        well_formed(t),
    ensures
        shows(t, key, ts, snapshot(t, key, ts)),
{
    lemma_latest(t.write, key, 0, ts);
    if exists|c: u64| c <= ts && #[trigger] t.write.contains_key((key, c)) {
        let c = latest(t.write, key, 0, ts)->0;
        assert(latest_commit(t, key, ts, c));
    }
}

/// A get never takes a live lock of a transaction in flight away, be it a prewrite lock or a
/// pessimistic one. Where the key is locked, the lock is not yet abandoned at the time of the
/// reader, and the primary of the lock, the key itself or another one, is still locked and not
/// committed by the same transaction, the table stays as it is and the reader hears that the key
/// is locked.
pub proof fn lemma_get_spares_live_locks(
    t: TableView,
    key: Seq<u8>,
    start_ts: u64,
    held: u64,
    first: u8,
    primary: Seq<u8>,
    reply: Result<GetResponse, Error>,
)
    requires
        well_formed(t),
        replies(t, ActionView::Get { key, start_ts }, Event::Get(reply)),
        t.lock.contains_key((key, held)),
        t.lock[(key, held)] == lock_cell(first, primary),
        start_ts <= held + 100_000_000,
        t.lock.contains_key((primary, held)),
        !has_commit_of(t, primary, held),
    ensures
        applied(t, ActionView::Get { key, start_ts }) == t,
        reply matches Err(e) && e.kind == ErrorKind::Other && e.message@ == "key is locked"@,
{
    lemma_get(t, key, start_ts, reply);
    assert((seq![first] + primary).skip(1) =~= primary);
}

} // verus!
