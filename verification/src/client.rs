//! Percolator transaction client (optimistic and pessimistic).
//!
//! A client decides what to ask of the timestamp oracle and of the store, and when to try
//! again. The calls themselves are made by whoever drives it: `get`, `set`, `lock_for_update`
//! and `commit` return an operation, which names its next [`Action`](crate::action::Action)
//! and goes on with the [`Event`](crate::action::Event) that came of it.

use vstd::prelude::*;

use crate::buffer::{
    coalesce, coalesced, contains_key, copy_keys, find_last, keys_view, last_value,
    lemma_coalesced, writes_view,
};
use crate::bytes::copy_bytes;
use crate::cell::{Write, WriteView};
use crate::commit_op::{commit_refused, commit_start, CommitOp, CommitView};
use crate::error::{Error, ErrorKind};
use crate::get_op::{get_start, GetOp, GetView};
use crate::lock_op::{lock_start, LockOp, LockPhaseView, LockView};
use crate::msg::TimestampResponse;

verus! {

/// Transaction locking mode (TiKV-style).
#[derive(Clone, Copy, Debug, PartialEq, Eq, Structural)]
pub enum TxnMode {
    /// Locks acquired only at prewrite (classic Percolator). Default.
    Optimistic,
    /// Locks acquired on `set` / `lock_for_update` during execution.
    Pessimistic,
}

impl Default for TxnMode {
    fn default() -> (mode: TxnMode)
        ensures
            mode == TxnMode::Optimistic,
    {
        TxnMode::Optimistic
    }
}

/// One transaction at a time.
#[derive(Debug)]
pub struct Client {
    mode: TxnMode,
    /// Snapshot timestamp for this txn; assigned in [`begin`](Self::begin).
    start_ts: u64,
    /// Pending writes (key, value), applied at commit via prewrite.
    writes: Vec<Write>,
    /// Keys locked early in pessimistic mode (may hold keys not yet in `writes`).
    locked_keys: Vec<Vec<u8>>,
    /// Primary key for this txn (first locked or written key).
    primary: Option<Vec<u8>>,
    /// A failed `set` has aborted the txn; it cannot commit any more.
    aborted: bool,
}

/// The mathematical value of a [`Client`].
#[verifier::ext_equal]
pub struct ClientView {
    pub mode: TxnMode,
    pub start_ts: u64,
    pub writes: Seq<WriteView>,
    pub locked_keys: Seq<Seq<u8>>,
    pub primary: Option<Seq<u8>>,
    pub aborted: bool,
}

impl View for Client {
    type V = ClientView;

    closed spec fn view(&self) -> ClientView {
        ClientView {
            mode: self.mode,
            start_ts: self.start_ts,
            writes: writes_view(self.writes@),
            locked_keys: keys_view(self.locked_keys@),
            primary: match self.primary {
                Some(key) => Some(key@),
                None => None,
            },
            aborted: self.aborted,
        }
    }
}

impl ClientView {
    /// A client in this mode whose transaction at `start_ts` has done nothing yet.
    pub open spec fn idle(mode: TxnMode, start_ts: u64) -> ClientView {
        ClientView {
            mode,
            start_ts,
            writes: Seq::empty(),
            locked_keys: Seq::empty(),
            primary: None,
            aborted: false,
        }
    }

    /// The client once its transaction is aborted: it has no locks any more, and cannot commit.
    pub open spec fn abort(self) -> ClientView {
        ClientView { locked_keys: Seq::empty(), primary: None, aborted: true, ..self }
    }

    /// The client with one more buffered write.
    pub open spec fn with_write(self, key: Seq<u8>, value: Seq<u8>) -> ClientView {
        ClientView { writes: self.writes.push((key, value)), ..self }
    }

    /// The client with `key` among the keys locked; the first one becomes the primary.
    pub open spec fn with_lock(self, key: Seq<u8>) -> ClientView {
        if self.locked_keys.contains(key) {
            self
        } else {
            ClientView {
                locked_keys: self.locked_keys.push(key),
                primary: Some(self.lock_primary(key)),
                ..self
            }
        }
    }

    /// No key is locked twice, and the primary is the first key locked.
    pub open spec fn valid(self) -> bool {
        &&& self.locked_keys.no_duplicates()
        &&& self.primary == if self.locked_keys.len() == 0 {
            None
        } else {
            Some(self.locked_keys[0])
        }
    }

    /// The primary under which `key` is locked.
    pub open spec fn lock_primary(self, key: Seq<u8>) -> Seq<u8> {
        match self.primary {
            Some(primary) => primary,
            None => key,
        }
    }

    /// The primary under which the transaction commits.
    pub open spec fn commit_primary(self) -> Seq<u8> {
        match self.primary {
            Some(primary) => primary,
            None => if self.writes.len() > 0 {
                coalesced(self.writes)[0].0
            } else {
                Seq::empty()
            },
        }
    }

    /// The first state of a get of `key`.
    pub open spec fn get_op(self, key: Seq<u8>) -> GetView {
        get_start(key, self.start_ts, last_value(self.writes, key))
    }

    /// The first state of a `set`, and the client after it has been called.
    pub open spec fn set_op(self, key: Seq<u8>, value: Seq<u8>) -> (LockView, ClientView) {
        if self.mode == TxnMode::Pessimistic && !self.locked_keys.contains(key) {
            (lock_start(self, key, Some(value), LockPhaseView::AwaitingTimestamp), self)
        } else {
            (
                lock_start(self, key, Some(value), LockPhaseView::Done(Ok(()))),
                self.with_write(key, value),
            )
        }
    }

    /// The first state of a `lock_for_update` of a pessimistic client.
    pub open spec fn lock_op(self, key: Seq<u8>) -> LockView {
        lock_start(
            self,
            key,
            None,
            if self.locked_keys.contains(key) {
                LockPhaseView::Done(Ok(()))
            } else {
                LockPhaseView::AwaitingTimestamp
            },
        )
    }

    /// The first state of the commit of the transaction.
    pub open spec fn commit_op(self) -> CommitView {
        let writes = coalesced(self.writes);
        if self.aborted {
            commit_refused(self.start_ts, self.commit_primary(), writes, self.locked_keys)
        } else {
            commit_start(self.start_ts, self.commit_primary(), writes, self.locked_keys)
        }
    }
}

impl Client {
    /// What holds of every client.
    #[verifier::type_invariant]
    pub open spec fn well_formed(self) -> bool {
        self@.valid()
    }

    /// Creates an **optimistic** client (locks at prewrite only).
    pub fn new() -> (client: Client)
        ensures
            client@ == ClientView::idle(TxnMode::Optimistic, 0),
            client@.mode == TxnMode::Optimistic,
            client@.start_ts == 0,
            client@.writes.len() == 0,
            client@.locked_keys.len() == 0,
            !client@.aborted,
    {
        Self::with_mode(TxnMode::Optimistic)
    }

    /// Creates a client with an explicit locking mode.
    pub fn with_mode(mode: TxnMode) -> (client: Client)
        ensures
            client@ == ClientView::idle(mode, 0),
            client@.mode == mode,
            client@.start_ts == 0,
            client@.writes.len() == 0,
            client@.locked_keys.len() == 0,
            !client@.aborted,
    {
        let client = Client {
            mode,
            start_ts: 0,
            writes: Vec::new(),
            locked_keys: Vec::new(),
            primary: None,
            aborted: false,
        };
        assert(client@ =~= ClientView::idle(mode, 0));
        client
    }

    /// The locking mode.
    pub fn mode(&self) -> (mode: TxnMode)
        ensures
            mode == self@.mode,
    {
        self.mode
    }

    /// The timestamp in a reply of the Timestamp Oracle.
    pub fn get_timestamp(&self, reply: Result<TimestampResponse, Error>) -> (timestamp: Result<
        u64,
        Error,
    >)
        ensures
            timestamp == match reply {
                Ok(response) => Ok::<u64, Error>(response.timestamp),
                Err(e) => Err(e),
            },
    {
        match reply {
            Ok(response) => Ok(response.timestamp),
            Err(e) => Err(e),
        }
    }

    /// Starts a transaction: take `start_ts` and clear buffers / locks state. Without a
    /// timestamp the snapshot is the one at 0.
    pub fn begin(&mut self, timestamp: Result<u64, Error>)
        ensures
            final(self)@.mode == old(self)@.mode,
            final(self)@.start_ts == if timestamp is Ok {
                timestamp->Ok_0
            } else {
                0
            },
            final(self)@.writes.len() == 0,
            final(self)@.locked_keys.len() == 0,
            final(self)@.primary is None,
            !final(self)@.aborted,
            final(self)@ == ClientView::idle(
                old(self)@.mode,
                match timestamp {
                    Ok(ts) => ts,
                    Err(_) => 0,
                },
            ),
    {
        let mut fresh = Client::with_mode(self.mode);
        fresh.start_ts = match timestamp {
            Ok(ts) => ts,
            Err(_) => 0,
        };
        *self = fresh;
    }

    /// Snapshot get at `start_ts`; a write of the transaction itself is seen first.
    pub fn get(&self, key: Vec<u8>) -> (op: GetOp)
        ensures
            op@ == get_start(key@, self@.start_ts, last_value(self@.writes, key@)),
            op@ == self@.get_op(key@),
    {
        let buffered = find_last(&self.writes, &key);
        GetOp::new(key, self.start_ts, buffered)
    }

    /// Buffer a write. In pessimistic mode, also acquires a lock immediately, and a failure
    /// to do so aborts the transaction: its locks are released, and it cannot commit until the
    /// next [`begin`](Self::begin).
    pub fn set(&mut self, key: Vec<u8>, value: Vec<u8>) -> (op: LockOp)
        ensures
            (op@, final(self)@) == old(self)@.set_op(key@, value@),
            ({
                let needs_lock = old(self)@.mode == TxnMode::Pessimistic && !old(
                    self,
                )@.locked_keys.contains(key@);
                &&& final(self)@ == if needs_lock {
                    old(self)@
                } else {
                    old(self)@.with_write(key@, value@)
                }
                &&& op@ == lock_start(
                    old(self)@,
                    key@,
                    Some(value@),
                    if needs_lock {
                        LockPhaseView::AwaitingTimestamp
                    } else {
                        LockPhaseView::Done(Ok(()))
                    },
                )
            }),
    {
        let start_ts: u64 = self.start_ts;
        let primary = self.primary_for(&key);
        if self.mode == TxnMode::Pessimistic && !contains_key(&self.locked_keys, &key) {
            return LockOp::asking(key, start_ts, primary, Some(value));
        }
        let op = LockOp::finished(
            copy_bytes(&key),
            start_ts,
            primary,
            Some(copy_bytes(&value)),
            Ok(()),
        );
        self.buffer_write(key, value);
        op
    }

    /// Pessimistic `SELECT ... FOR UPDATE`: lock `key` now without writing a value.
    pub fn lock_for_update(&mut self, key: Vec<u8>) -> (op: LockOp)
        ensures
            final(self)@ == old(self)@,
            old(self)@.mode == TxnMode::Optimistic ==> (
            op@.phase matches LockPhaseView::Done(outcome) && outcome is Err && outcome->Err_0.kind
                == ErrorKind::InvalidInput && outcome->Err_0.message@
                == "lock_for_update requires pessimistic mode"@),
            old(self)@.mode == TxnMode::Pessimistic ==> op@ == old(self)@.lock_op(key@),
            old(self)@.mode != TxnMode::Pessimistic ==> exists|e: Error|
                #[trigger] e.says(
                    ErrorKind::InvalidInput,
                    "lock_for_update requires pessimistic mode"@,
                ) && op@ == lock_start(old(self)@, key@, None, LockPhaseView::Done(Err(e))),
            old(self)@.mode == TxnMode::Pessimistic ==> op@ == lock_start(
                old(self)@,
                key@,
                None,
                if old(self)@.locked_keys.contains(key@) {
                    LockPhaseView::Done(Ok(()))
                } else {
                    LockPhaseView::AwaitingTimestamp
                },
            ),
    {
        let start_ts: u64 = self.start_ts;
        let primary = self.primary_for(&key);
        if self.mode != TxnMode::Pessimistic {
            let e = Error::new(
                ErrorKind::InvalidInput,
                "lock_for_update requires pessimistic mode",
            );
            return LockOp::finished(key, start_ts, primary, None, Err(e));
        }
        if contains_key(&self.locked_keys, &key) {
            return LockOp::finished(key, start_ts, primary, None, Ok(()));
        }
        LockOp::asking(key, start_ts, primary, None)
    }

    /// Two-phase commit. Optimistic: lock at prewrite. Pessimistic: downgrade
    /// existing locks and write Data at prewrite, then commit. An aborted transaction commits
    /// nothing and reports that it did not commit.
    pub fn commit(&self) -> (op: CommitOp)
        ensures
            op@ == self@.commit_op(),
    {
        let writes = self.coalesced_writes();
        let primary = self.txn_primary(&writes);
        let locked_keys = copy_keys(&self.locked_keys);
        if self.aborted {
            CommitOp::refused(self.start_ts, primary, writes, locked_keys)
        } else {
            CommitOp::new(self.start_ts, primary, writes, locked_keys)
        }
    }

    fn coalesced_writes(&self) -> (writes: Vec<Write>)
        ensures
            writes_view(writes@) == coalesced(self@.writes),
    {
        coalesce(&self.writes)
    }

    fn txn_primary(&self, writes: &Vec<Write>) -> (primary: Vec<u8>)
        requires
            writes_view(writes@) == coalesced(self@.writes),
        ensures
            primary@ == self@.commit_primary(),
    {
        proof {
            lemma_coalesced(self@.writes);
        }
        match &self.primary {
            Some(key) => copy_bytes(key),
            None => if writes.len() > 0 {
                assert(writes_view(writes@)[0] == writes@[0]@);
                copy_bytes(&writes[0].0)
            } else {
                let empty: Vec<u8> = Vec::new();
                assert(empty@ =~= Seq::<u8>::empty());
                empty
            },
        }
    }

    fn primary_for(&self, key: &Vec<u8>) -> (primary: Vec<u8>)
        ensures
            primary@ == self@.lock_primary(key@),
    {
        match &self.primary {
            Some(primary) => copy_bytes(primary),
            None => copy_bytes(key),
        }
    }

    /// Buffers a write.
    pub(crate) fn buffer_write(&mut self, key: Vec<u8>, value: Vec<u8>)
        ensures
            final(self)@ == old(self)@.with_write(key@, value@),
    {
        proof {
            use_type_invariant(&*self);
        }
        let ghost before = self@;
        let mut writes: Vec<Write> = Vec::new();
        std::mem::swap(&mut writes, &mut self.writes);
        writes.push(Write(key, value));
        self.writes = writes;
        assert(self@ =~= before.with_write(key@, value@));
    }

    /// Notes that the store has granted the lock on `key`.
    pub(crate) fn note_lock(&mut self, key: Vec<u8>)
        ensures
            final(self)@ == old(self)@.with_lock(key@),
    {
        proof {
            use_type_invariant(&*self);
        }
        if contains_key(&self.locked_keys, &key) {
            return ;
        }
        let ghost before = self@;
        let primary = self.primary_for(&key);
        let mut locked_keys = copy_keys(&self.locked_keys);
        let ghost old_keys = locked_keys@;
        locked_keys.push(key);
        let mut writes: Vec<Write> = Vec::new();
        std::mem::swap(&mut writes, &mut self.writes);
        proof {
            assert(keys_view(locked_keys@) =~= keys_view(old_keys).push(key@));
            lemma_with_lock_is_valid(before, key@);
        }
        *self = Client {
            mode: self.mode,
            start_ts: self.start_ts,
            writes,
            locked_keys,
            primary: Some(primary),
            aborted: self.aborted,
        };
        assert(self@ =~= before.with_lock(key@));
    }

    /// Aborts the transaction, and hands out the keys that it has locked.
    pub(crate) fn abort(&mut self) -> (locked_keys: Vec<Vec<u8>>)
        ensures
            keys_view(locked_keys@) == old(self)@.locked_keys,
            final(self)@ == old(self)@.abort(),
    {
        proof {
            use_type_invariant(&*self);
        }
        let ghost before = self@;
        let locked_keys = copy_keys(&self.locked_keys);
        let mut writes: Vec<Write> = Vec::new();
        std::mem::swap(&mut writes, &mut self.writes);
        *self = Client {
            mode: self.mode,
            start_ts: self.start_ts,
            writes,
            locked_keys: Vec::new(),
            primary: None,
            aborted: true,
        };
        assert(self@ =~= before.abort());
        locked_keys
    }
}

proof fn lemma_with_lock_is_valid(client: ClientView, key: Seq<u8>)
    requires
        client.valid(),
    ensures
        client.with_lock(key).valid(),
{
}

impl Default for Client {
    fn default() -> (client: Client)
        ensures
            client@ == ClientView::idle(TxnMode::Optimistic, 0),
    {
        Client::new()
    }
}

impl Clone for Client {
    fn clone(&self) -> (copy: Client)
        ensures
            copy@ == self@,
    {
        proof {
            use_type_invariant(self);
        }
        let mut writes: Vec<Write> = Vec::new();
        let mut i: usize = 0;
        while i < self.writes.len()
            invariant
                i <= self.writes@.len(),
                writes@.len() == i,
                forall|j: int| 0 <= j < i ==> (#[trigger] writes@[j])@ == self.writes@[j]@,
            decreases self.writes@.len() - i,
        {
            writes.push(self.writes[i].clone());
            i = i + 1;
        }
        let primary = match &self.primary {
            Some(key) => Some(copy_bytes(key)),
            None => None,
        };
        let copy = Client {
            mode: self.mode,
            start_ts: self.start_ts,
            writes,
            locked_keys: copy_keys(&self.locked_keys),
            primary,
            aborted: self.aborted,
        };
        assert(copy@ =~= self@);
        copy
    }
}

} // verus!
