//! The acquisition of a pessimistic lock in progress, for `set` and for `lock_for_update`.

use vstd::prelude::*;

use crate::action::{
    backoff, backoff_millis, gives_up, out_of_attempts, pending_view, Action, ActionView, Event,
    RETRY_TIMES,
};
use crate::buffer::keys_view;
use crate::bytes::copy_bytes;
use crate::client::{Client, ClientView};
use crate::error::Error;
use crate::msg::{PessimisticLockRequest, RollbackRequest, TimestampRequest};

verus! {

/// How far the acquisition has come.
#[derive(Debug)]
enum LockPhase {
    /// The timestamp to lock at has been asked for.
    AwaitingTimestamp,
    /// The store has been asked; this is attempt number `attempt`, counted from 0.
    Locking { for_update_ts: u64, attempt: usize },
    /// Backing off after the failed attempt number `attempt`.
    Waiting { for_update_ts: u64, attempt: usize },
    /// The transaction is aborted; key number `index` of `keys` is being rolled back.
    Aborting { keys: Vec<Vec<u8>>, index: usize, error: Error },
    Done(Result<(), Error>),
}

/// A key to be locked and, for `set`, the value to be buffered under the lock.
#[derive(Debug)]
pub struct LockOp {
    key: Vec<u8>,
    start_ts: u64,
    primary: Vec<u8>,
    value: Option<Vec<u8>>,
    phase: LockPhase,
}

pub enum LockPhaseView {
    AwaitingTimestamp,
    Locking { for_update_ts: u64, attempt: nat },
    Waiting { for_update_ts: u64, attempt: nat },
    Aborting { keys: Seq<Seq<u8>>, index: nat, error: Error },
    Done(Result<(), Error>),
}

/// The mathematical value of a [`LockOp`].
pub struct LockView {
    pub key: Seq<u8>,
    pub start_ts: u64,
    pub primary: Seq<u8>,
    pub value: Option<Seq<u8>>,
    pub phase: LockPhaseView,
}

/// The mathematical value of the value to be buffered.
pub open spec fn buffered_view(value: Option<Vec<u8>>) -> Option<Seq<u8>> {
    match value {
        Some(v) => Some(v@),
        None => None,
    }
}

impl View for LockOp {
    type V = LockView;

    closed spec fn view(&self) -> LockView {
        LockView {
            key: self.key@,
            start_ts: self.start_ts,
            primary: self.primary@,
            value: buffered_view(self.value),
            phase: match self.phase {
                LockPhase::AwaitingTimestamp => LockPhaseView::AwaitingTimestamp,
                LockPhase::Locking { for_update_ts, attempt } => LockPhaseView::Locking {
                    for_update_ts,
                    attempt: attempt as nat,
                },
                LockPhase::Waiting { for_update_ts, attempt } => LockPhaseView::Waiting {
                    for_update_ts,
                    attempt: attempt as nat,
                },
                LockPhase::Aborting { keys, index, error } => LockPhaseView::Aborting {
                    keys: keys_view(keys@),
                    index: index as nat,
                    error,
                },
                LockPhase::Done(outcome) => LockPhaseView::Done(outcome),
            },
        }
    }
}

/// An acquisition of `key` for `client` in this phase.
pub open spec fn lock_start(
    client: ClientView,
    key: Seq<u8>,
    value: Option<Seq<u8>>,
    phase: LockPhaseView,
) -> LockView {
    LockView { key, start_ts: client.start_ts, primary: client.lock_primary(key), value, phase }
}

/// What an acquisition waits for.
pub open spec fn lock_pending(s: LockView) -> Option<ActionView> {
    match s.phase {
        LockPhaseView::AwaitingTimestamp => Some(ActionView::GetTimestamp),
        LockPhaseView::Locking { for_update_ts, .. } => Some(
            ActionView::PessimisticLock {
                key: s.key,
                start_ts: s.start_ts,
                for_update_ts,
                primary: s.primary,
            },
        ),
        LockPhaseView::Waiting { attempt, .. } => Some(
            ActionView::Sleep { millis: backoff(attempt) },
        ),
        LockPhaseView::Aborting { keys, index, .. } => Some(
            ActionView::Rollback { key: keys[index as int], start_ts: s.start_ts },
        ),
        LockPhaseView::Done(_) => None,
    }
}

/// The lock is granted: the client notes it, and buffers the value of a `set`.
pub open spec fn lock_granted(s: LockView, client: ClientView) -> (LockView, ClientView) {
    let noted = client.with_lock(s.key);
    (
        LockView { phase: LockPhaseView::Done(Ok(())), ..s },
        match s.value {
            Some(value) => noted.with_write(s.key, value),
            None => noted,
        },
    )
}

/// The lock cannot be had. A failed `set` aborts the transaction and releases every lock that
/// it holds; a failed `lock_for_update` leaves the transaction as it is.
pub open spec fn lock_refused(s: LockView, client: ClientView, error: Error) -> (
    LockView,
    ClientView,
) {
    match s.value {
        Some(_) => (
            LockView {
                phase: if client.locked_keys.len() == 0 {
                    LockPhaseView::Done(Err(error))
                } else {
                    LockPhaseView::Aborting { keys: client.locked_keys, index: 0, error }
                },
                ..s
            },
            client.abort(),
        ),
        None => (LockView { phase: LockPhaseView::Done(Err(error)), ..s }, client),
    }
}

/// The state of an acquisition and of its client after an event; one that answers nothing
/// pending changes nothing.
pub open spec fn lock_next(s: LockView, client: ClientView, event: Event) -> (
    LockView,
    ClientView,
) {
    match (s.phase, event) {
        (LockPhaseView::AwaitingTimestamp, Event::Timestamp(Ok(for_update_ts))) => (
            LockView { phase: LockPhaseView::Locking { for_update_ts, attempt: 0 }, ..s },
            client,
        ),
        (LockPhaseView::AwaitingTimestamp, Event::Timestamp(Err(e))) => lock_refused(s, client, e),
        (LockPhaseView::Locking { .. }, Event::PessimisticLock(Ok(_))) => lock_granted(s, client),
        (LockPhaseView::Locking { for_update_ts, attempt }, Event::PessimisticLock(Err(e))) => {
            if gives_up(e, attempt) {
                lock_refused(s, client, e)
            } else {
                (
                    LockView { phase: LockPhaseView::Waiting { for_update_ts, attempt }, ..s },
                    client,
                )
            }
        },
        (LockPhaseView::Waiting { for_update_ts, attempt }, Event::Slept) => (
            LockView {
                phase: LockPhaseView::Locking { for_update_ts, attempt: attempt + 1 },
                ..s
            },
            client,
        ),
        (LockPhaseView::Aborting { keys, index, error }, Event::Rollback(_)) => (
            LockView {
                phase: if index + 1 < keys.len() {
                    LockPhaseView::Aborting { keys, index: index + 1, error }
                } else {
                    LockPhaseView::Done(Err(error))
                },
                ..s
            },
            client,
        ),
        _ => (s, client),
    }
}

/// Positions and attempts stay in their bounds.
pub open spec fn lock_valid(s: LockView) -> bool {
    match s.phase {
        LockPhaseView::AwaitingTimestamp => true,
        LockPhaseView::Locking { attempt, .. } => attempt < RETRY_TIMES,
        LockPhaseView::Waiting { attempt, .. } => !out_of_attempts(attempt),
        LockPhaseView::Aborting { keys, index, .. } => index < keys.len(),
        LockPhaseView::Done(_) => true,
    }
}

impl LockOp {
    #[verifier::type_invariant]
    spec fn valid(self) -> bool {
        lock_valid(self@)
    }

    /// An acquisition that has to ask for its timestamp first.
    pub(crate) fn asking(
        key: Vec<u8>,
        start_ts: u64,
        primary: Vec<u8>,
        value: Option<Vec<u8>>,
    ) -> (op: LockOp)
        ensures
            op@ == (LockView {
                key: key@,
                start_ts,
                primary: primary@,
                value: buffered_view(value),
                phase: LockPhaseView::AwaitingTimestamp,
            }),
    {
        LockOp { key, start_ts, primary, value, phase: LockPhase::AwaitingTimestamp }
    }

    /// An acquisition that is over before it has asked for anything.
    pub(crate) fn finished(
        key: Vec<u8>,
        start_ts: u64,
        primary: Vec<u8>,
        value: Option<Vec<u8>>,
        outcome: Result<(), Error>,
    ) -> (op: LockOp)
        ensures
            op@ == (LockView {
                key: key@,
                start_ts,
                primary: primary@,
                value: buffered_view(value),
                phase: LockPhaseView::Done(outcome),
            }),
    {
        LockOp { key, start_ts, primary, value, phase: LockPhase::Done(outcome) }
    }

    /// What has to be done next; `None` once the acquisition is over.
    pub fn action(&self) -> (action: Option<Action>)
        ensures
            pending_view(action) == lock_pending(self@),
    {
        proof {
            use_type_invariant(self);
        }
        match &self.phase {
            LockPhase::AwaitingTimestamp => Some(Action::GetTimestamp(TimestampRequest {  })),
            LockPhase::Locking { for_update_ts, .. } => Some(
                Action::PessimisticLock(
                    PessimisticLockRequest {
                        key: copy_bytes(&self.key),
                        start_ts: self.start_ts,
                        for_update_ts: *for_update_ts,
                        primary: copy_bytes(&self.primary),
                    },
                ),
            ),
            LockPhase::Waiting { attempt, .. } => Some(Action::Sleep(backoff_millis(*attempt))),
            LockPhase::Aborting { keys, index, .. } => Some(
                Action::Rollback(
                    RollbackRequest { key: copy_bytes(&keys[*index]), start_ts: self.start_ts },
                ),
            ),
            LockPhase::Done(_) => None,
        }
    }

    /// Goes on after an action; `client` is the one that started the acquisition.
    pub fn resume(self, client: &mut Client, event: Event) -> (next: LockOp)
        ensures
            (next@, final(client)@) == lock_next(self@, old(client)@, event),
    {
        proof {
            use_type_invariant(&self);
        }
        let LockOp { key, start_ts, primary, value, phase } = self;
        let phase = match (phase, event) {
            (LockPhase::AwaitingTimestamp, Event::Timestamp(Ok(for_update_ts))) => {
                LockPhase::Locking { for_update_ts, attempt: 0 }
            },
            (LockPhase::AwaitingTimestamp, Event::Timestamp(Err(e))) => refuse(&value, client, e),
            (LockPhase::Locking { .. }, Event::PessimisticLock(Ok(_))) => {
                client.note_lock(copy_bytes(&key));
                if let Some(v) = &value {
                    client.buffer_write(copy_bytes(&key), copy_bytes(v));
                }
                LockPhase::Done(Ok(()))
            },
            (LockPhase::Locking { for_update_ts, attempt }, Event::PessimisticLock(Err(e))) => {
                if attempt + 1 >= RETRY_TIMES || e.is_write_conflict() {
                    refuse(&value, client, e)
                } else {
                    LockPhase::Waiting { for_update_ts, attempt }
                }
            },
            (LockPhase::Waiting { for_update_ts, attempt }, Event::Slept) => LockPhase::Locking {
                for_update_ts,
                attempt: attempt + 1,
            },
            (LockPhase::Aborting { keys, index, error }, Event::Rollback(_)) => {
                if index < keys.len() - 1 {
                    LockPhase::Aborting { keys, index: index + 1, error }
                } else {
                    LockPhase::Done(Err(error))
                }
            },
            (phase, _) => phase,
        };
        LockOp { key, start_ts, primary, value, phase }
    }

    /// Success or the error, once the acquisition is over.
    pub fn into_result(self) -> (result: Option<Result<(), Error>>)
        ensures
            match self@.phase {
                LockPhaseView::Done(outcome) => result == Some(outcome),
                _ => result is None,
            },
    {
        match self.phase {
            LockPhase::Done(outcome) => Some(outcome),
            _ => None,
        }
    }
}

/// Ends an acquisition without the lock: a `set` aborts the transaction.
fn refuse(value: &Option<Vec<u8>>, client: &mut Client, error: Error) -> (phase: LockPhase)
    ensures
        match phase {
            LockPhase::Done(outcome) => {
                &&& outcome == Err::<(), Error>(error)
                &&& *value is Some ==> old(client)@.locked_keys.len() == 0
            },
            LockPhase::Aborting { keys, index, error: e } => {
                &&& *value is Some
                &&& old(client)@.locked_keys.len() > 0
                &&& keys_view(keys@) == old(client)@.locked_keys
                &&& index == 0
                &&& e == error
            },
            _ => false,
        },
        *value is Some ==> final(client)@ == old(client)@.abort(),
        *value is None ==> final(client)@ == old(client)@,
{
    if value.is_none() {
        return LockPhase::Done(Err(error));
    }
    let keys = client.abort();
    assert(keys@.len() == keys_view(keys@).len());
    if keys.len() == 0 {
        LockPhase::Done(Err(error))
    } else {
        LockPhase::Aborting { keys, index: 0, error }
    }
}

} // verus!
