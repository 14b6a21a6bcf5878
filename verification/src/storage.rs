//! MVCC store: optimistic 2PC + pessimistic locks (TiKV-style).

use vstd::prelude::*;

use crate::action::{Action, Event};
use crate::bytes::{copy_bytes, same_bytes};
use crate::cell::{Column, KeyView, Value, ValueView};
use crate::error::{Error, ErrorKind};
use crate::lock::{decode_lock, decoded_lock, encode_lock, encoded_lock, lock_view};
use crate::msg::{
    CommitRequest, CommitResponse, GetRequest, GetResponse, PessimisticLockRequest,
    PessimisticLockResponse, PrewriteRequest, PrewriteResponse, RollbackRequest, RollbackResponse,
};
use crate::protocol::{applied, replies};
use crate::table::{KvTable, TableView};
use crate::versions::{earliest_pointer, latest};

verus! {

/// How long a lock may live before another txn can treat it as abandoned and clean it up.
/// Compared against timestamp differences (TSO values are nanosecond wall-clock based).
pub const TTL: u64 = 100_000_000;

/// The timestamp of the lock on `key`: its latest one, if there is any.
pub open spec fn lock_ts(t: TableView, key: Seq<u8>) -> Option<u64> {
    latest(t.lock, key, 0, u64::MAX)
}

/// At `now` a lock taken at `lock_ts` is older than [`TTL`].
pub open spec fn expired(now: u64, lock_ts: u64) -> bool {
    now - lock_ts > TTL
}

/// A request at `now` has to give way to the lock on `key`.
pub open spec fn blocked(t: TableView, key: Seq<u8>, now: u64) -> bool {
    lock_ts(t, key) matches Some(ts) && !expired(now, ts)
}

/// `key` has a commit record later than `ts`.
pub open spec fn committed_after(t: TableView, key: Seq<u8>, ts: u64) -> bool {
    exists|w: u64| w > ts && #[trigger] t.write.contains_key((key, w))
}

/// The primary that a request names; an empty one stands for the key itself.
pub open spec fn primary_or_key(primary: Seq<u8>, key: Seq<u8>) -> Seq<u8> {
    if primary.len() == 0 {
        key
    } else {
        primary
    }
}

/// The lock on `key` is the one of the txn that started at `start_ts` with this primary.
pub open spec fn owns_lock(t: TableView, key: Seq<u8>, start_ts: u64, primary: Seq<u8>) -> bool {
    &&& lock_ts(t, key) == Some(start_ts)
    &&& decoded_lock(t.lock[(key, start_ts)]) matches Some((p, _))
    &&& p == primary
}

/// The lock on `key` is a pessimistic one of the txn that started at `start_ts`.
pub open spec fn owns_pessimistic_lock(
    t: TableView,
    key: Seq<u8>,
    start_ts: u64,
    primary: Seq<u8>,
) -> bool {
    lock_ts(t, key) == Some(start_ts) && decoded_lock(t.lock[(key, start_ts)]) == Some(
        (primary, true),
    )
}

/// `t` without the lock and the staged data of `key` at `ts`.
pub open spec fn discarded(t: TableView, key: Seq<u8>, ts: u64) -> TableView {
    TableView { lock: t.lock.remove((key, ts)), data: t.data.remove((key, ts)), ..t }
}

/// `t` without the lock on `key`, and without what that lock staged.
pub open spec fn cleared(t: TableView, key: Seq<u8>) -> TableView {
    match lock_ts(t, key) {
        Some(ts) => discarded(t, key, ts),
        None => t,
    }
}

/// `t` with a lock on `key`.
pub open spec fn locked(
    t: TableView,
    key: Seq<u8>,
    start_ts: u64,
    primary: Seq<u8>,
    pessimistic: bool,
) -> TableView {
    TableView { lock: t.lock.insert((key, start_ts), encoded_lock(primary, pessimistic)), ..t }
}

/// `t` with a prewrite lock on `key` and the value staged under it.
pub open spec fn staged(
    t: TableView,
    key: Seq<u8>,
    start_ts: u64,
    primary: Seq<u8>,
    value: Seq<u8>,
) -> TableView {
    TableView {
        data: t.data.insert((key, start_ts), ValueView::Bytes(value)),
        ..locked(t, key, start_ts, primary, false)
    }
}

/// `t` with the txn that started at `start_ts` committed on `key` at `commit_ts`.
pub open spec fn committed(t: TableView, key: Seq<u8>, start_ts: u64, commit_ts: u64) -> TableView {
    TableView {
        write: t.write.insert((key, commit_ts), ValueView::Timestamp(start_ts)),
        lock: t.lock.remove((key, start_ts)),
        ..t
    }
}

/// How a request to lock a key is answered.
pub enum LockOutcome {
    Granted,
    LockConflict,
    WriteConflict,
}

/// A live lock of another holder wins over a lock request at `now`, and so does a commit
/// later than `now`.
pub open spec fn lock_outcome(t: TableView, key: Seq<u8>, now: u64) -> LockOutcome {
    if blocked(t, key, now) {
        LockOutcome::LockConflict
    } else if committed_after(t, key, now) {
        LockOutcome::WriteConflict
    } else {
        LockOutcome::Granted
    }
}

/// How the store answers a pessimistic lock request; asking again for a lock that the txn
/// already holds succeeds.
pub open spec fn pessimistic_lock_outcome(
    t: TableView,
    key: Seq<u8>,
    start_ts: u64,
    for_update_ts: u64,
    primary: Seq<u8>,
) -> LockOutcome {
    if owns_lock(t, key, start_ts, primary) {
        LockOutcome::Granted
    } else {
        lock_outcome(t, key, for_update_ts)
    }
}

/// The table after a pessimistic lock request. An expired lock goes even where the
/// request then meets a write conflict.
pub open spec fn after_pessimistic_lock(
    t: TableView,
    key: Seq<u8>,
    start_ts: u64,
    for_update_ts: u64,
    primary: Seq<u8>,
) -> TableView {
    if owns_lock(t, key, start_ts, primary) {
        t
    } else {
        match lock_outcome(t, key, for_update_ts) {
            LockOutcome::LockConflict => t,
            LockOutcome::WriteConflict => cleared(t, key),
            LockOutcome::Granted => locked(cleared(t, key), key, start_ts, primary, true),
        }
    }
}

/// How the store answers a prewrite; a pessimistic lock of the same txn counts as its lock.
pub open spec fn prewrite_outcome(
    t: TableView,
    key: Seq<u8>,
    start_ts: u64,
    primary: Seq<u8>,
) -> LockOutcome {
    if owns_pessimistic_lock(t, key, start_ts, primary) {
        LockOutcome::Granted
    } else {
        lock_outcome(t, key, start_ts)
    }
}

/// The table after a prewrite. A pessimistic lock of the same txn is downgraded.
pub open spec fn after_prewrite(
    t: TableView,
    key: Seq<u8>,
    start_ts: u64,
    primary: Seq<u8>,
    value: Seq<u8>,
) -> TableView {
    if owns_pessimistic_lock(t, key, start_ts, primary) {
        staged(t, key, start_ts, primary, value)
    } else {
        match lock_outcome(t, key, start_ts) {
            LockOutcome::LockConflict => t,
            LockOutcome::WriteConflict => cleared(t, key),
            LockOutcome::Granted => staged(cleared(t, key), key, start_ts, primary, value),
        }
    }
}

/// The table after a commit: nothing happens without the lock of the txn.
pub open spec fn after_commit(
    t: TableView,
    key: Seq<u8>,
    start_ts: u64,
    commit_ts: u64,
) -> TableView {
    if t.lock.contains_key((key, start_ts)) {
        committed(t, key, start_ts, commit_ts)
    } else {
        t
    }
}

/// The table after a rollback: nothing happens without the lock of the txn.
pub open spec fn after_rollback(t: TableView, key: Seq<u8>, start_ts: u64) -> TableView {
    if t.lock.contains_key((key, start_ts)) {
        discarded(t, key, start_ts)
    } else {
        t
    }
}

/// The table once the lock on `key` has been resolved as far as Percolator's rules allow at
/// `start_ts`. A primary decides for its secondaries. Where it has committed, a prewritten
/// secondary is committed at the same timestamp, and one that was only locked, without a value,
/// loses its lock and nothing else. A secondary whose primary is gone is dropped, and a lock whose primary is still
/// locked goes, together with the primary, when it has expired.
pub open spec fn resolved(t: TableView, start_ts: u64, key: Seq<u8>) -> TableView {
    match lock_ts(t, key) {
        None => t,
        Some(ts) => match decoded_lock(t.lock[(key, ts)]) {
            None => t,
            Some((primary, pessimistic)) => if primary == key {
                if expired(start_ts, ts) {
                    discarded(t, key, ts)
                } else {
                    t
                }
            } else {
                match earliest_pointer(t.write, primary, ts) {
                    Some(commit_ts) => if pessimistic {
                        TableView { lock: t.lock.remove((key, ts)), ..t }
                    } else {
                        committed(t, key, ts, commit_ts)
                    },
                    None => if !t.lock.contains_key((primary, ts)) {
                        discarded(t, key, ts)
                    } else if expired(start_ts, ts) {
                        discarded(discarded(t, primary, ts), key, ts)
                    } else {
                        t
                    },
                }
            },
        },
    }
}

/// What a snapshot at `ts` shows of `key`: the value of the latest commit up to `ts`, and
/// the empty value where there is none.
pub open spec fn snapshot(t: TableView, key: Seq<u8>, ts: u64) -> Seq<u8> {
    match latest(t.write, key, 0, ts) {
        Some(commit_ts) => match t.write[(key, commit_ts)] {
            ValueView::Timestamp(data_ts) => stored_value(t, key, data_ts),
            ValueView::Bytes(_) => Seq::empty(),
        },
        None => Seq::empty(),
    }
}

/// The bytes in the Data column of `key` at `ts`, empty where there are none.
pub open spec fn stored_value(t: TableView, key: Seq<u8>, ts: u64) -> Seq<u8> {
    if t.data.contains_key((key, ts)) {
        match t.data[(key, ts)] {
            ValueView::Bytes(value) => value,
            ValueView::Timestamp(_) => Seq::empty(),
        }
    } else {
        Seq::empty()
    }
}

/// The MVCC store.
pub struct MemoryStorage {
    data: KvTable,
}

impl View for MemoryStorage {
    type V = TableView;

    closed spec fn view(&self) -> TableView {
        self.data@
    }
}

impl Default for MemoryStorage {
    fn default() -> (storage: MemoryStorage)
        ensures
            storage@ == TableView::empty(),
            storage@.write == Map::<KeyView, ValueView>::empty(),
            storage@.data == Map::<KeyView, ValueView>::empty(),
            storage@.lock == Map::<KeyView, ValueView>::empty(),
    {
        MemoryStorage { data: KvTable::default() }
    }
}

impl MemoryStorage {
    /// Snapshot read at `req.start_ts`.
    pub fn get(&mut self, req: GetRequest) -> (response: Result<GetResponse, Error>)
        ensures
            final(self)@ == resolved(old(self)@, req.start_ts, req.key@),
            final(self)@ == applied(old(self)@, Action::Get(req)@),
            replies(old(self)@, Action::Get(req)@, Event::Get(response)),
            match response {
                Ok(r) => {
                    &&& lock_ts(final(self)@, req.key@) is None
                    &&& r.value@ == snapshot(final(self)@, req.key@, req.start_ts)
                },
                Err(e) => {
                    &&& lock_ts(final(self)@, req.key@) is Some
                    &&& e.says(ErrorKind::Other, "key is locked"@)
                },
            },
    {
        self.back_off_maybe_clean_up_lock(req.start_ts, copy_bytes(&req.key));
        let table = &self.data;
        // Fresh lock still present: in-flight txn may commit into this snapshot.
        if table.read(copy_bytes(&req.key), Column::Lock, None, None).is_some() {
            return Err(Error::new(ErrorKind::Other, "key is locked"));
        }
        let data_ts: u64 = match table.read(
            copy_bytes(&req.key),
            Column::Write,
            None,
            Some(req.start_ts),
        ) {
            Some((_, Value::Timestamp(data_ts))) => *data_ts,
            _ => {
                return Ok(GetResponse { value: Vec::new() });
            },
        };
        match table.read(req.key, Column::Data, Some(data_ts), Some(data_ts)) {
            Some((_, Value::Vector(v))) => Ok(GetResponse { value: copy_bytes(v) }),
            _ => Ok(GetResponse { value: Vec::new() }),
        }
    }

    /// Lock a key during pessimistic txn execution (no Data yet).
    pub fn pessimistic_lock(&mut self, req: PessimisticLockRequest) -> (response: Result<
        PessimisticLockResponse,
        Error,
    >)
        ensures
            final(self)@ == applied(old(self)@, Action::PessimisticLock(req)@),
            replies(old(self)@, Action::PessimisticLock(req)@, Event::PessimisticLock(response)),
            ({
                let primary = primary_or_key(req.primary@, req.key@);
                &&& final(self)@ == after_pessimistic_lock(
                    old(self)@,
                    req.key@,
                    req.start_ts,
                    req.for_update_ts,
                    primary,
                )
                &&& answers_lock_outcome(
                    response,
                    pessimistic_lock_outcome(
                        old(self)@,
                        req.key@,
                        req.start_ts,
                        req.for_update_ts,
                        primary,
                    ),
                )
            }),
    {
        let primary = if req.primary.is_empty() {
            copy_bytes(&req.key)
        } else {
            copy_bytes(&req.primary)
        };
        // Already hold our own lock at start_ts: idempotent success.
        if let Some((held_ts, lock)) = self.lock_on(&req.key) {
            if let Some((lock_primary, _)) = lock {
                if held_ts == req.start_ts && same_bytes(&lock_primary, &primary) {
                    return Ok(PessimisticLockResponse {  });
                }
            }
            if req.for_update_ts.saturating_sub(held_ts) <= TTL {
                return Err(Error::new(ErrorKind::Other, "lock conflict"));
            }
            // Stale foreign lock: clean and continue.
            self.data.erase(copy_bytes(&req.key), Column::Data, held_ts);
            self.data.erase(copy_bytes(&req.key), Column::Lock, held_ts);
        }
        // Write committed after for_update_ts: conflict (TiKV pessimistic check).
        if self.has_write_after(&req.key, req.for_update_ts) {
            return Err(Error::new(ErrorKind::Other, "write conflict"));
        }
        self.data.write(
            req.key,
            Column::Lock,
            req.start_ts,
            encode_lock(primary.as_slice(), true),
        );
        Ok(PessimisticLockResponse {  })
    }

    /// First phase of 2PC: lock + stage Data.
    /// If this txn already holds a pessimistic lock, downgrade it and write Data.
    pub fn prewrite(&mut self, req: PrewriteRequest) -> (response: Result<PrewriteResponse, Error>)
        ensures
            final(self)@ == applied(old(self)@, Action::Prewrite(req)@),
            replies(old(self)@, Action::Prewrite(req)@, Event::Prewrite(response)),
            ({
                let primary = primary_or_key(req.primary@, req.key@);
                &&& final(self)@ == after_prewrite(
                    old(self)@,
                    req.key@,
                    req.start_ts,
                    primary,
                    req.value@,
                )
                &&& answers_lock_outcome(
                    response,
                    prewrite_outcome(old(self)@, req.key@, req.start_ts, primary),
                )
            }),
    {
        let primary = if req.primary.is_empty() {
            copy_bytes(&req.key)
        } else {
            copy_bytes(&req.primary)
        };
        let mut downgrade = false;
        if let Some((held_ts, lock)) = self.lock_on(&req.key) {
            if let Some((lock_primary, pessimistic)) = lock {
                // Our pessimistic lock: downgrade to prewrite lock and write Data.
                if held_ts == req.start_ts && pessimistic && same_bytes(&lock_primary, &primary) {
                    downgrade = true;
                }
            }
            if !downgrade {
                if req.start_ts.saturating_sub(held_ts) <= TTL {
                    return Err(Error::new(ErrorKind::Other, "lock conflict"));
                }
                self.data.erase(copy_bytes(&req.key), Column::Data, held_ts);
                self.data.erase(copy_bytes(&req.key), Column::Lock, held_ts);
            }
        }
        if !downgrade && self.has_write_after(&req.key, req.start_ts) {
            return Err(Error::new(ErrorKind::Other, "write conflict"));
        }
        self.data.write(
            copy_bytes(&req.key),
            Column::Lock,
            req.start_ts,
            encode_lock(primary.as_slice(), false),
        );
        self.data.write(req.key, Column::Data, req.start_ts, Value::Vector(req.value));
        Ok(PrewriteResponse {  })
    }

    /// Second phase of 2PC: turn the lock of the txn into a commit record.
    pub fn commit(&mut self, req: CommitRequest) -> (response: Result<CommitResponse, Error>)
        ensures
            final(self)@ == after_commit(old(self)@, req.key@, req.start_ts, req.commit_ts),
            final(self)@ == applied(old(self)@, Action::Commit(req)@),
            replies(old(self)@, Action::Commit(req)@, Event::Commit(response)),
            response matches Ok(r) && r.ok == old(self)@.lock.contains_key(
                (req.key@, req.start_ts),
            ),
    {
        if self.data.read(
            copy_bytes(&req.key),
            Column::Lock,
            Some(req.start_ts),
            Some(req.start_ts),
        ).is_none() {
            return Ok(CommitResponse { ok: false });
        }
        self.data.write(
            copy_bytes(&req.key),
            Column::Write,
            req.commit_ts,
            Value::Timestamp(req.start_ts),
        );
        self.data.erase(req.key, Column::Lock, req.start_ts);
        Ok(CommitResponse { ok: true })
    }

    /// Drop the lock of the txn and what it staged.
    pub fn rollback(&mut self, req: RollbackRequest) -> (response: Result<RollbackResponse, Error>)
        ensures
            final(self)@ == after_rollback(old(self)@, req.key@, req.start_ts),
            final(self)@ == applied(old(self)@, Action::Rollback(req)@),
            replies(old(self)@, Action::Rollback(req)@, Event::Rollback(response)),
            response is Ok,
    {
        if self.data.read(
            copy_bytes(&req.key),
            Column::Lock,
            Some(req.start_ts),
            Some(req.start_ts),
        ).is_some() {
            self.data.erase(copy_bytes(&req.key), Column::Lock, req.start_ts);
            self.data.erase(req.key, Column::Data, req.start_ts);
        }
        Ok(RollbackResponse {  })
    }

    /// Resolve a lock on `key` using Percolator primary/secondary rules.
    pub fn back_off_maybe_clean_up_lock(&mut self, start_ts: u64, key: Vec<u8>)
        ensures
            final(self)@ == resolved(old(self)@, start_ts, key@),
    {
        let Some((held_ts, lock)) = self.lock_on(&key) else {
            return ;
        };
        let Some((primary, pessimistic)) = lock else {
            return ;
        };
        if same_bytes(&primary, &key) {
            if start_ts.saturating_sub(held_ts) > TTL {
                self.data.erase(copy_bytes(&key), Column::Lock, held_ts);
                self.data.erase(key, Column::Data, held_ts);
            }
            return ;
        }
        if let Some(commit_ts) = self.data.find_write_commit_ts(primary.as_slice(), held_ts) {
            // Locked without a value: there is nothing to commit.
            if pessimistic {
                self.data.erase(key, Column::Lock, held_ts);
                return ;
            }
            self.data.write(
                copy_bytes(&key),
                Column::Write,
                commit_ts,
                Value::Timestamp(held_ts),
            );
            self.data.erase(key, Column::Lock, held_ts);
            return ;
        }
        let primary_still_locked = self.data.read(
            copy_bytes(&primary),
            Column::Lock,
            Some(held_ts),
            Some(held_ts),
        ).is_some();
        if primary_still_locked {
            if start_ts.saturating_sub(held_ts) > TTL {
                self.data.erase(copy_bytes(&primary), Column::Lock, held_ts);
                self.data.erase(primary, Column::Data, held_ts);
                self.data.erase(copy_bytes(&key), Column::Lock, held_ts);
                self.data.erase(key, Column::Data, held_ts);
            }
            return ;
        }
        self.data.erase(copy_bytes(&key), Column::Lock, held_ts);
        self.data.erase(key, Column::Data, held_ts);
    }

    /// The timestamp of the lock on `key`, and the lock itself where the cell holds one.
    fn lock_on(&self, key: &Vec<u8>) -> (lock: Option<(u64, Option<(Vec<u8>, bool)>)>)
        ensures
            match lock {
                Some((ts, l)) => {
                    &&& lock_ts(self@, key@) == Some(ts)
                    &&& lock_view(l) == decoded_lock(self@.lock[(key@, ts)])
                },
                None => lock_ts(self@, key@) is None,
            },
    {
        match self.data.read(copy_bytes(key), Column::Lock, None, None) {
            Some((row, value)) => Some((row.1, decode_lock(value))),
            None => None,
        }
    }

    /// Whether `key` has a commit record later than `ts`; none is later than the last
    /// timestamp.
    fn has_write_after(&self, key: &Vec<u8>, ts: u64) -> (found: bool)
        ensures
            found == committed_after(self@, key@, ts),
    {
        ts < u64::MAX && self.data.read(
            copy_bytes(key),
            Column::Write,
            Some(ts + 1),
            None,
        ).is_some()
    }
}

/// A response reports this outcome of a lock request.
pub open spec fn answers_lock_outcome<T>(response: Result<T, Error>, outcome: LockOutcome) -> bool {
    match outcome {
        LockOutcome::Granted => response is Ok,
        LockOutcome::LockConflict => response matches Err(e) && e.says(
            ErrorKind::Other,
            "lock conflict"@,
        ),
        LockOutcome::WriteConflict => response matches Err(e) && e.says(
            ErrorKind::Other,
            "write conflict"@,
        ),
    }
}

} // verus!
