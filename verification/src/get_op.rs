//! A snapshot get in progress.

use vstd::prelude::*;

use crate::action::{
    backoff, backoff_millis, out_of_attempts, pending_view, Action, ActionView, Event, RETRY_TIMES,
};
use crate::bytes::copy_bytes;
use crate::error::Error;
use crate::msg::GetRequest;

verus! {

/// How far a get has come.
#[derive(Debug)]
enum GetPhase {
    /// The store has been asked; this is attempt number `attempt`, counted from 0.
    Asking { attempt: usize },
    /// Backing off after the failed attempt number `attempt`.
    Waiting { attempt: usize },
    Done(Result<Vec<u8>, Error>),
}

/// A get of one key at the snapshot of a transaction.
#[derive(Debug)]
pub struct GetOp {
    key: Vec<u8>,
    start_ts: u64,
    phase: GetPhase,
}

pub enum GetPhaseView {
    Asking { attempt: nat },
    Waiting { attempt: nat },
    Done(Result<Seq<u8>, Error>),
}

/// The mathematical value of a [`GetOp`].
pub struct GetView {
    pub key: Seq<u8>,
    pub start_ts: u64,
    pub phase: GetPhaseView,
}

/// The mathematical value of the outcome of a get.
pub open spec fn value_view(outcome: Result<Vec<u8>, Error>) -> Result<Seq<u8>, Error> {
    match outcome {
        Ok(value) => Ok(value@),
        Err(e) => Err(e),
    }
}

impl View for GetOp {
    type V = GetView;

    closed spec fn view(&self) -> GetView {
        GetView {
            key: self.key@,
            start_ts: self.start_ts,
            phase: match self.phase {
                GetPhase::Asking { attempt } => GetPhaseView::Asking { attempt: attempt as nat },
                GetPhase::Waiting { attempt } => GetPhaseView::Waiting { attempt: attempt as nat },
                GetPhase::Done(outcome) => GetPhaseView::Done(value_view(outcome)),
            },
        }
    }
}

/// The first state of a get, given what the transaction itself has buffered for the key.
pub open spec fn get_start(key: Seq<u8>, start_ts: u64, buffered: Option<Seq<u8>>) -> GetView {
    GetView {
        key,
        start_ts,
        phase: match buffered {
            Some(value) => GetPhaseView::Done(Ok(value)),
            None => GetPhaseView::Asking { attempt: 0 },
        },
    }
}

/// What a get waits for.
pub open spec fn get_pending(s: GetView) -> Option<ActionView> {
    match s.phase {
        GetPhaseView::Asking { .. } => Some(ActionView::Get { key: s.key, start_ts: s.start_ts }),
        GetPhaseView::Waiting { attempt } => Some(ActionView::Sleep { millis: backoff(attempt) }),
        GetPhaseView::Done(_) => None,
    }
}

/// The state of a get after an event; one that answers nothing pending changes nothing.
pub open spec fn get_next(s: GetView, event: Event) -> GetView {
    match (s.phase, event) {
        (GetPhaseView::Asking { .. }, Event::Get(Ok(response))) => GetView {
            phase: GetPhaseView::Done(Ok(response.value@)),
            ..s
        },
        (GetPhaseView::Asking { attempt }, Event::Get(Err(e))) => GetView {
            phase: if out_of_attempts(attempt) {
                GetPhaseView::Done(Err(e))
            } else {
                GetPhaseView::Waiting { attempt }
            },
            ..s
        },
        (GetPhaseView::Waiting { attempt }, Event::Slept) => GetView {
            phase: GetPhaseView::Asking { attempt: attempt + 1 },
            ..s
        },
        _ => s,
    }
}

/// Attempts are counted from 0 and stay below the limit.
pub open spec fn get_valid(s: GetView) -> bool {
    match s.phase {
        GetPhaseView::Asking { attempt } => attempt < RETRY_TIMES,
        GetPhaseView::Waiting { attempt } => !out_of_attempts(attempt),
        GetPhaseView::Done(_) => true,
    }
}

impl GetOp {
    #[verifier::type_invariant]
    spec fn valid(self) -> bool {
        get_valid(self@)
    }

    pub fn new(key: Vec<u8>, start_ts: u64, buffered: Option<Vec<u8>>) -> (op: GetOp)
        ensures
            op@ == get_start(
                key@,
                start_ts,
                match buffered {
                    Some(value) => Some(value@),
                    None => None,
                },
            ),
    {
        let phase = match buffered {
            Some(value) => GetPhase::Done(Ok(value)),
            None => GetPhase::Asking { attempt: 0 },
        };
        GetOp { key, start_ts, phase }
    }

    /// What has to be done next; `None` once the get is over.
    pub fn action(&self) -> (action: Option<Action>)
        ensures
            pending_view(action) == get_pending(self@),
    {
        proof {
            use_type_invariant(self);
        }
        match &self.phase {
            GetPhase::Asking { .. } => Some(
                Action::Get(GetRequest { key: copy_bytes(&self.key), start_ts: self.start_ts }),
            ),
            GetPhase::Waiting { attempt } => Some(Action::Sleep(backoff_millis(*attempt))),
            GetPhase::Done(_) => None,
        }
    }

    /// Goes on after an action.
    pub fn resume(self, event: Event) -> (next: GetOp)
        ensures
            next@ == get_next(self@, event),
    {
        proof {
            use_type_invariant(&self);
        }
        let GetOp { key, start_ts, phase } = self;
        let phase = match (phase, event) {
            (GetPhase::Asking { .. }, Event::Get(Ok(response))) => GetPhase::Done(
                Ok(response.value),
            ),
            (GetPhase::Asking { attempt }, Event::Get(Err(e))) => if attempt + 1 >= RETRY_TIMES {
                GetPhase::Done(Err(e))
            } else {
                GetPhase::Waiting { attempt }
            },
            (GetPhase::Waiting { attempt }, Event::Slept) => GetPhase::Asking {
                attempt: attempt + 1,
            },
            (phase, _) => phase,
        };
        GetOp { key, start_ts, phase }
    }

    /// The value or the error, once the get is over.
    pub fn into_result(self) -> (result: Option<Result<Vec<u8>, Error>>)
        ensures
            match self@.phase {
                GetPhaseView::Done(outcome) => result matches Some(r) && value_view(r) == outcome,
                _ => result is None,
            },
            self@.phase matches GetPhaseView::Done(outcome) ==> match outcome {
                Ok(value) => result matches Some(Ok(bytes)) && bytes@ == value,
                Err(e) => result matches Some(Err(error)) && error == e,
            },
    {
        match self.phase {
            GetPhase::Done(outcome) => Some(outcome),
            _ => None,
        }
    }
}

} // verus!
