//! A two-phase commit in progress.

use vstd::prelude::*;

use crate::action::{
    backoff, backoff_millis, gives_up, out_of_attempts, pending_view, Action, ActionView, Event,
    RETRY_TIMES,
};
use crate::buffer::{contains_key, copy_keys, find_key, keys_of, keys_view, writes_view};
use crate::bytes::copy_bytes;
use crate::cell::{Write, WriteView};
use crate::error::Error;
use crate::msg::{CommitRequest, PrewriteRequest, RollbackRequest, TimestampRequest};

verus! {

/// How far a commit has come.
#[derive(Debug)]
enum CommitPhase {
    /// Write number `index` has been sent for prewrite; this is attempt number `attempt`.
    Prewriting { index: usize, attempt: usize },
    /// Backing off after the failed attempt number `attempt` to prewrite number `index`.
    Waiting { index: usize, attempt: usize },
    /// Everything is prewritten, and the commit timestamp has been asked for.
    AwaitingTimestamp,
    /// Write number `index` has been sent for commit.
    Committing { commit_ts: u64, index: usize },
    /// Key number `index` of `keys` is being rolled back; `outcome` is reported afterwards.
    RollingBack { keys: Vec<Vec<u8>>, index: usize, outcome: Result<bool, Error> },
    Done(Result<bool, Error>),
}

/// The two-phase commit of one transaction.
#[derive(Debug)]
pub struct CommitOp {
    start_ts: u64,
    primary: Vec<u8>,
    writes: Vec<Write>,
    locked_keys: Vec<Vec<u8>>,
    phase: CommitPhase,
}

pub enum CommitPhaseView {
    Prewriting { index: nat, attempt: nat },
    Waiting { index: nat, attempt: nat },
    AwaitingTimestamp,
    Committing { commit_ts: u64, index: nat },
    RollingBack { keys: Seq<Seq<u8>>, index: nat, outcome: Result<bool, Error> },
    Done(Result<bool, Error>),
}

/// The mathematical value of a [`CommitOp`].
pub struct CommitView {
    pub start_ts: u64,
    pub primary: Seq<u8>,
    pub writes: Seq<WriteView>,
    pub locked_keys: Seq<Seq<u8>>,
    pub phase: CommitPhaseView,
}

impl View for CommitOp {
    type V = CommitView;

    closed spec fn view(&self) -> CommitView {
        CommitView {
            start_ts: self.start_ts,
            primary: self.primary@,
            writes: writes_view(self.writes@),
            locked_keys: keys_view(self.locked_keys@),
            phase: match self.phase {
                CommitPhase::Prewriting { index, attempt } => CommitPhaseView::Prewriting {
                    index: index as nat,
                    attempt: attempt as nat,
                },
                CommitPhase::Waiting { index, attempt } => CommitPhaseView::Waiting {
                    index: index as nat,
                    attempt: attempt as nat,
                },
                CommitPhase::AwaitingTimestamp => CommitPhaseView::AwaitingTimestamp,
                CommitPhase::Committing { commit_ts, index } => CommitPhaseView::Committing {
                    commit_ts,
                    index: index as nat,
                },
                CommitPhase::RollingBack { keys, index, outcome } => CommitPhaseView::RollingBack {
                    keys: keys_view(keys@),
                    index: index as nat,
                    outcome,
                },
                CommitPhase::Done(outcome) => CommitPhaseView::Done(outcome),
            },
        }
    }
}

/// Roll back `keys`, if there are any, and report `outcome`.
pub open spec fn roll_back_then(keys: Seq<Seq<u8>>, outcome: Result<bool, Error>) -> CommitPhaseView {
    if keys.len() == 0 {
        CommitPhaseView::Done(outcome)
    } else {
        CommitPhaseView::RollingBack { keys, index: 0, outcome }
    }
}

/// The first state of a commit. Without writes there is nothing to commit, and locks that
/// were taken are just released.
pub open spec fn commit_start(
    start_ts: u64,
    primary: Seq<u8>,
    writes: Seq<WriteView>,
    locked_keys: Seq<Seq<u8>>,
) -> CommitView {
    CommitView {
        start_ts,
        primary,
        writes,
        locked_keys,
        phase: if writes.len() == 0 {
            roll_back_then(locked_keys, Ok(true))
        } else {
            CommitPhaseView::Prewriting { index: 0, attempt: 0 }
        },
    }
}

/// The first state of the commit of an aborted transaction: locks that were taken are released,
/// and the answer is that nothing was committed.
pub open spec fn commit_refused(
    start_ts: u64,
    primary: Seq<u8>,
    writes: Seq<WriteView>,
    locked_keys: Seq<Seq<u8>>,
) -> CommitView {
    CommitView {
        start_ts,
        primary,
        writes,
        locked_keys,
        phase: roll_back_then(locked_keys, Ok(false)),
    }
}

/// What a commit waits for.
pub open spec fn commit_pending(s: CommitView) -> Option<ActionView> {
    match s.phase {
        CommitPhaseView::Prewriting { index, .. } => Some(
            ActionView::Prewrite {
                key: s.writes[index as int].0,
                value: s.writes[index as int].1,
                start_ts: s.start_ts,
                primary: s.primary,
            },
        ),
        CommitPhaseView::Waiting { attempt, .. } => Some(
            ActionView::Sleep { millis: backoff(attempt) },
        ),
        CommitPhaseView::AwaitingTimestamp => Some(ActionView::GetTimestamp),
        CommitPhaseView::Committing { commit_ts, index } => Some(
            ActionView::Commit {
                key: s.writes[index as int].0,
                value: s.writes[index as int].1,
                start_ts: s.start_ts,
                commit_ts,
            },
        ),
        CommitPhaseView::RollingBack { keys, index, .. } => Some(
            ActionView::Rollback { key: keys[index as int], start_ts: s.start_ts },
        ),
        CommitPhaseView::Done(_) => None,
    }
}

/// `i` is the place of the first write of `key`.
pub open spec fn is_place_of(writes: Seq<WriteView>, key: Seq<u8>, i: int) -> bool {
    &&& 0 <= i < writes.len()
    &&& writes[i].0 == key
    &&& forall|j: int| 0 <= j < i ==> (#[trigger] writes[j]).0 != key
}

/// The writes in the order in which they are committed: the primary changes places with the
/// first one, where it is among them.
pub open spec fn primary_first(writes: Seq<WriteView>, primary: Seq<u8>) -> Seq<WriteView> {
    if exists|i: int| is_place_of(writes, primary, i) {
        let i = choose|i: int| is_place_of(writes, primary, i);
        writes.update(0, writes[i]).update(i, writes[0])
    } else {
        writes
    }
}

/// The keys to roll back when prewriting number `index` has failed for good: those prewritten,
/// and after them the locks that are not among them.
pub open spec fn keys_to_release(s: CommitView, index: nat) -> Seq<Seq<u8>> {
    let prewritten = keys_of(s.writes).take(index as int);
    prewritten + s.locked_keys.filter(|k: Seq<u8>| !prewritten.contains(k))
}

/// The state of a commit after an event; one that answers nothing pending changes nothing.
pub open spec fn commit_next(s: CommitView, event: Event) -> CommitView {
    match (s.phase, event) {
        (CommitPhaseView::Prewriting { index, .. }, Event::Prewrite(Ok(_))) => CommitView {
            phase: if index + 1 < s.writes.len() {
                CommitPhaseView::Prewriting { index: index + 1, attempt: 0 }
            } else {
                CommitPhaseView::AwaitingTimestamp
            },
            ..s
        },
        (CommitPhaseView::Prewriting { index, attempt }, Event::Prewrite(Err(e))) => CommitView {
            phase: if gives_up(e, attempt) {
                roll_back_then(keys_to_release(s, index), Ok(false))
            } else {
                CommitPhaseView::Waiting { index, attempt }
            },
            ..s
        },
        (CommitPhaseView::Waiting { index, attempt }, Event::Slept) => CommitView {
            phase: CommitPhaseView::Prewriting { index, attempt: attempt + 1 },
            ..s
        },
        (CommitPhaseView::AwaitingTimestamp, Event::Timestamp(Ok(commit_ts))) => CommitView {
            writes: primary_first(s.writes, s.primary),
            phase: CommitPhaseView::Committing { commit_ts, index: 0 },
            ..s
        },
        (CommitPhaseView::AwaitingTimestamp, Event::Timestamp(Err(e))) => CommitView {
            phase: roll_back_then(keys_of(s.writes), Err(e)),
            ..s
        },
        (CommitPhaseView::Committing { commit_ts, index }, Event::Commit(reply)) => CommitView {
            phase: if reply is Ok && reply->Ok_0.ok {
                if index + 1 < s.writes.len() {
                    CommitPhaseView::Committing { commit_ts, index: index + 1 }
                } else {
                    CommitPhaseView::Done(Ok(true))
                }
            } else {
                roll_back_then(keys_of(s.writes).skip(index as int), Ok(false))
            },
            ..s
        },
        (CommitPhaseView::RollingBack { keys, index, outcome }, Event::Rollback(_)) => CommitView {
            phase: if index + 1 < keys.len() {
                CommitPhaseView::RollingBack { keys, index: index + 1, outcome }
            } else {
                CommitPhaseView::Done(outcome)
            },
            ..s
        },
        _ => s,
    }
}

/// Positions and attempts stay in their bounds.
pub open spec fn commit_valid(s: CommitView) -> bool {
    match s.phase {
        CommitPhaseView::Prewriting { index, attempt } => {
            index < s.writes.len() && attempt < RETRY_TIMES
        },
        CommitPhaseView::Waiting { index, attempt } => {
            index < s.writes.len() && !out_of_attempts(attempt)
        },
        CommitPhaseView::AwaitingTimestamp => s.writes.len() > 0,
        CommitPhaseView::Committing { index, .. } => index < s.writes.len(),
        CommitPhaseView::RollingBack { keys, index, .. } => index < keys.len(),
        CommitPhaseView::Done(_) => true,
    }
}

/// The copies of the keys of `writes` from `from` on, up to but without `to`.
fn key_range(writes: &Vec<Write>, from: usize, to: usize) -> (keys: Vec<Vec<u8>>)
    requires
        from <= to <= writes@.len(),
    ensures
        keys_view(keys@) == keys_of(writes_view(writes@)).subrange(from as int, to as int),
{
    let mut keys: Vec<Vec<u8>> = Vec::new();
    let mut i: usize = from;
    let ghost all = keys_of(writes_view(writes@));
    proof {
        assert(keys_view(keys@) =~= all.subrange(from as int, from as int));
    }
    while i < to
        invariant
            from <= i <= to <= writes@.len(),
            all == keys_of(writes_view(writes@)),
            keys_view(keys@) == all.subrange(from as int, i as int),
        decreases to - i,
    {
        let ghost before = keys@;
        keys.push(copy_bytes(&writes[i].0));
        proof {
            assert(keys_view(keys@) =~= keys_view(before).push(all[i as int]));
            assert(all.subrange(from as int, i + 1) =~= all.subrange(from as int, i as int).push(
                all[i as int],
            ));
        }
        i = i + 1;
    }
    keys
}

/// Adds to `keys` the copies of those of `locked_keys` that were not in it.
fn add_missing(keys: Vec<Vec<u8>>, locked_keys: &Vec<Vec<u8>>) -> (all: Vec<Vec<u8>>)
    ensures
        keys_view(all@) == keys_view(keys@) + keys_view(locked_keys@).filter(
            |k: Seq<u8>| !keys_view(keys@).contains(k),
        ),
{
    let mut extra: Vec<Vec<u8>> = Vec::new();
    let mut i: usize = 0;
    let ghost have = keys_view(keys@);
    let ghost locked = keys_view(locked_keys@);
    let ghost missing = |k: Seq<u8>| !have.contains(k);
    proof {
        reveal(Seq::filter);
        assert(keys_view(extra@) =~= locked.take(0).filter(missing));
    }
    while i < locked_keys.len()
        invariant
            i <= locked_keys@.len(),
            have == keys_view(keys@),
            locked == keys_view(locked_keys@),
            missing == (|k: Seq<u8>| !have.contains(k)),
            keys_view(extra@) == locked.take(i as int).filter(missing),
        decreases locked_keys@.len() - i,
    {
        let ghost before = extra@;
        proof {
            reveal(Seq::filter);
            assert(locked.take(i + 1).drop_last() =~= locked.take(i as int));
            assert(locked.take(i + 1).last() == locked_keys@[i as int]@);
        }
        if !contains_key(&keys, &locked_keys[i]) {
            extra.push(copy_bytes(&locked_keys[i]));
            assert(keys_view(extra@) =~= keys_view(before).push(locked_keys@[i as int]@));
        }
        i = i + 1;
    }
    let mut all = keys;
    proof {
        assert(locked.take(i as int) =~= locked);
    }
    let ghost added = extra@;
    all.append(&mut extra);
    assert(keys_view(all@) =~= have + keys_view(added));
    all
}

/// Makes the primary and the first write change places, where the primary is among them.
fn put_primary_first(writes: Vec<Write>, primary: &Vec<u8>) -> (ordered: Vec<Write>)
    ensures
        writes_view(ordered@) == primary_first(writes_view(writes@), primary@),
{
    let ghost all = writes_view(writes@);
    let mut ordered = writes;
    match find_key(&ordered, primary) {
        Some(at) => {
            proof {
                assert forall|j: int| 0 <= j < at implies (#[trigger] all[j]).0 != primary@ by {
                    assert(writes@[j]@.0 != primary@);
                }
                assert(is_place_of(all, primary@, at as int));
                let i = choose|i: int| is_place_of(all, primary@, i);
                assert(is_place_of(all, primary@, i));
                assert(i == at);
            }
            let first = ordered[0].clone();
            let moved = ordered[at].clone();
            ordered[0] = moved;
            ordered[at] = first;
            assert(writes_view(ordered@) =~= all.update(0, all[at as int]).update(
                at as int,
                all[0],
            ));
        },
        None => {
            proof {
                if exists|i: int| is_place_of(all, primary@, i) {
                    let i = choose|i: int| is_place_of(all, primary@, i);
                    assert(is_place_of(all, primary@, i));
                    assert(writes@[i]@.0 == primary@);
                }
            }
        },
    }
    ordered
}

/// Rolls back `keys`, if there are any, and reports `outcome`.
fn release(keys: Vec<Vec<u8>>, outcome: Result<bool, Error>) -> (phase: CommitPhase)
    ensures
        keys@.len() == 0 ==> phase == CommitPhase::Done(outcome),
        keys@.len() > 0 ==> phase == (CommitPhase::RollingBack { keys, index: 0, outcome }),
{
    if keys.len() == 0 {
        CommitPhase::Done(outcome)
    } else {
        CommitPhase::RollingBack { keys, index: 0, outcome }
    }
}

impl CommitOp {
    #[verifier::type_invariant]
    spec fn valid(self) -> bool {
        commit_valid(self@)
    }

    pub fn new(
        start_ts: u64,
        primary: Vec<u8>,
        writes: Vec<Write>,
        locked_keys: Vec<Vec<u8>>,
    ) -> (op: CommitOp)
        ensures
            op@ == commit_start(
                start_ts,
                primary@,
                writes_view(writes@),
                keys_view(locked_keys@),
            ),
    {
        let phase = if writes.len() == 0 {
            release(copy_keys(&locked_keys), Ok(true))
        } else {
            CommitPhase::Prewriting { index: 0, attempt: 0 }
        };
        CommitOp { start_ts, primary, writes, locked_keys, phase }
    }

    /// The commit of an aborted transaction.
    pub fn refused(
        start_ts: u64,
        primary: Vec<u8>,
        writes: Vec<Write>,
        locked_keys: Vec<Vec<u8>>,
    ) -> (op: CommitOp)
        ensures
            op@ == commit_refused(
                start_ts,
                primary@,
                writes_view(writes@),
                keys_view(locked_keys@),
            ),
    {
        let phase = release(copy_keys(&locked_keys), Ok(false));
        CommitOp { start_ts, primary, writes, locked_keys, phase }
    }

    /// What has to be done next; `None` once the commit is over.
    pub fn action(&self) -> (action: Option<Action>)
        ensures
            pending_view(action) == commit_pending(self@),
    {
        proof {
            use_type_invariant(self);
        }
        match &self.phase {
            CommitPhase::Prewriting { index, .. } => {
                let write = &self.writes[*index];
                Some(
                    Action::Prewrite(
                        PrewriteRequest {
                            key: copy_bytes(&write.0),
                            value: copy_bytes(&write.1),
                            start_ts: self.start_ts,
                            primary: copy_bytes(&self.primary),
                        },
                    ),
                )
            },
            CommitPhase::Waiting { attempt, .. } => Some(Action::Sleep(backoff_millis(*attempt))),
            CommitPhase::AwaitingTimestamp => Some(Action::GetTimestamp(TimestampRequest {  })),
            CommitPhase::Committing { commit_ts, index } => {
                let write = &self.writes[*index];
                Some(
                    Action::Commit(
                        CommitRequest {
                            key: copy_bytes(&write.0),
                            value: copy_bytes(&write.1),
                            start_ts: self.start_ts,
                            commit_ts: *commit_ts,
                        },
                    ),
                )
            },
            CommitPhase::RollingBack { keys, index, .. } => Some(
                Action::Rollback(
                    RollbackRequest { key: copy_bytes(&keys[*index]), start_ts: self.start_ts },
                ),
            ),
            CommitPhase::Done(_) => None,
        }
    }

    /// Goes on after an action.
    pub fn resume(self, event: Event) -> (next: CommitOp)
        ensures
            next@ == commit_next(self@, event),
    {
        proof {
            use_type_invariant(&self);
        }
        let ghost s = self@;
        let CommitOp { start_ts, primary, mut writes, locked_keys, phase } = self;
        let phase = match (phase, event) {
            (CommitPhase::Prewriting { index, .. }, Event::Prewrite(Ok(_))) => {
                if index < writes.len() - 1 {
                    CommitPhase::Prewriting { index: index + 1, attempt: 0 }
                } else {
                    CommitPhase::AwaitingTimestamp
                }
            },
            (CommitPhase::Prewriting { index, attempt }, Event::Prewrite(Err(e))) => {
                if attempt + 1 >= RETRY_TIMES || e.is_write_conflict() {
                    let prewritten = key_range(&writes, 0, index);
                    proof {
                        assert(keys_of(s.writes).subrange(0, index as int) =~= keys_of(
                            s.writes,
                        ).take(index as int));
                    }
                    release(add_missing(prewritten, &locked_keys), Ok(false))
                } else {
                    CommitPhase::Waiting { index, attempt }
                }
            },
            (CommitPhase::Waiting { index, attempt }, Event::Slept) => CommitPhase::Prewriting {
                index,
                attempt: attempt + 1,
            },
            (CommitPhase::AwaitingTimestamp, Event::Timestamp(Ok(commit_ts))) => {
                writes = put_primary_first(writes, &primary);
                CommitPhase::Committing { commit_ts, index: 0 }
            },
            (CommitPhase::AwaitingTimestamp, Event::Timestamp(Err(e))) => {
                let keys = key_range(&writes, 0, writes.len());
                proof {
                    assert(keys_of(s.writes).subrange(0, s.writes.len() as int) =~= keys_of(
                        s.writes,
                    ));
                }
                release(keys, Err(e))
            },
            (CommitPhase::Committing { commit_ts, index }, Event::Commit(reply)) => {
                let ok = match reply {
                    Ok(response) => response.ok,
                    Err(_) => false,
                };
                if !ok {
                    let keys = key_range(&writes, index, writes.len());
                    proof {
                        assert(keys_of(s.writes).subrange(index as int, s.writes.len() as int)
                            =~= keys_of(s.writes).skip(index as int));
                    }
                    release(keys, Ok(false))
                } else if index < writes.len() - 1 {
                    CommitPhase::Committing { commit_ts, index: index + 1 }
                } else {
                    CommitPhase::Done(Ok(true))
                }
            },
            (CommitPhase::RollingBack { keys, index, outcome }, Event::Rollback(_)) => {
                if index < keys.len() - 1 {
                    CommitPhase::RollingBack { keys, index: index + 1, outcome }
                } else {
                    CommitPhase::Done(outcome)
                }
            },
            (phase, _) => phase,
        };
        CommitOp { start_ts, primary, writes, locked_keys, phase }
    }

    /// Whether the transaction was committed, or the error, once the commit is over.
    pub fn into_result(self) -> (result: Option<Result<bool, Error>>)
        ensures
            match self@.phase {
                CommitPhaseView::Done(outcome) => result == Some(outcome),
                _ => result is None,
            },
    {
        match self.phase {
            CommitPhase::Done(outcome) => Some(outcome),
            _ => None,
        }
    }
}

} // verus!
