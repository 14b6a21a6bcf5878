//! What holds of optimistic transactions that share an oracle and a store, in whatever order
//! they are served.

use vstd::prelude::*;

use crate::action::{ActionView, Event};
use crate::buffer::{
    coalesced, distinct_keys, keys_of, last_value, lemma_coalesced, lemma_distinct_keys,
};
use crate::cell::{KeyView, ValueView, WriteView};
use crate::client::{ClientView, TxnMode};
use crate::commit_op::{
    commit_next, commit_pending, commit_valid, primary_first, CommitPhaseView, CommitView,
};
use crate::error::Error;
use crate::lock::{decoded_lock, encoded_lock, lemma_lock_round_trip};
use crate::msg::GetResponse;
use crate::protocol::{applied, replies};
use crate::storage::{blocked, committed_after, lock_ts, primary_or_key};
use crate::store_laws::{
    lemma_lock_ts, lemma_requests_keep_table_well_formed, lemma_requests_leave_other_keys,
    may_touch, nothing_committed, well_formed,
};
use crate::system_laws::{
    available, keeps_off, lemma_other_keeps_undisturbed_inv, lemma_own_keeps_undisturbed_inv,
    lemma_undisturbed_phase, lemma_undisturbed_start, undisturbed_inv, world_next, world_start,
    Move, World,
};
use crate::table::TableView;
use crate::txn_laws::{
    commit_rank, lemma_commit_rank, lemma_commit_terminates, lemma_primary_first,
};
use crate::versions::{
    earliest_pointer, latest, lemma_earliest_pointer, lemma_latest, points_to,
};

verus! {

// ---- Transactions side by side ----

/// The commits of a number of transactions, each absent until its transaction begins, the store
/// that they share, and the last timestamp that their oracle has issued.
pub struct System {
    pub ops: Seq<Option<CommitView>>,
    pub table: TableView,
    pub last: int,
}

/// What happens next.
pub enum Turn {
    /// Transaction number `who` takes its start timestamp. Its writes are local, so that from
    /// here on it is its commit that talks to the store.
    Begin { who: int, start_ts: u64 },
    /// The commit of transaction number `who` is served and hears `event`.
    Step { who: int, event: Event },
    /// The oracle issues a timestamp to somebody else.
    Issue { ts: u64 },
    /// The store serves somebody else.
    Other(ActionView),
}

/// An optimistic client that has begun at `start_ts` and then made these writes.
pub open spec fn optimistic(start_ts: u64, writes: Seq<WriteView>) -> ClientView {
    ClientView { writes, ..ClientView::idle(TxnMode::Optimistic, start_ts) }
}

/// The system before anybody has begun, on an empty store.
pub open spec fn system_start(transactions: nat) -> System {
    System { ops: Seq::new(transactions, |i: int| None), table: TableView::empty(), last: 0 }
}

/// The system after a turn; transaction number `i` makes the writes `plans[i]`.
pub open spec fn system_next(plans: Seq<Seq<WriteView>>, s: System, turn: Turn) -> System {
    match turn {
        Turn::Begin { who, start_ts } => System {
            ops: s.ops.update(who, Some(optimistic(start_ts, plans[who]).commit_op())),
            last: start_ts as int,
            ..s
        },
        Turn::Step { who, event } => {
            let op = s.ops[who]->0;
            System {
                ops: s.ops.update(who, Some(commit_next(op, event))),
                table: applied(s.table, commit_pending(op)->0),
                last: match event {
                    Event::Timestamp(Ok(ts)) => ts as int,
                    _ => s.last,
                },
            }
        },
        Turn::Issue { ts } => System { last: ts as int, ..s },
        Turn::Other(a) => System { table: applied(s.table, a), ..s },
    }
}

/// A transaction begins once, commits hear what the store answers, and every timestamp is
/// greater than those issued before.
pub open spec fn system_allows(s: System, turn: Turn) -> bool {
    match turn {
        Turn::Begin { who, start_ts } => {
            0 <= who < s.ops.len() && s.ops[who] is None && start_ts > s.last
        },
        Turn::Step { who, event } => {
            &&& 0 <= who < s.ops.len()
            &&& s.ops[who] matches Some(op)
            &&& commit_pending(op) matches Some(a)
            &&& replies(s.table, a, event)
            &&& event matches Event::Timestamp(Ok(ts)) ==> ts > s.last
        },
        Turn::Issue { ts } => ts > s.last,
        Turn::Other(_) => true,
    }
}

/// The system after a series of turns.
pub open spec fn system_after(
    plans: Seq<Seq<WriteView>>,
    s: System,
    turns: Seq<Turn>,
) -> System
    decreases turns.len(),
{
    if turns.len() == 0 {
        s
    } else {
        system_next(plans, system_after(plans, s, turns.drop_last()), turns.last())
    }
}

/// Every turn of the series is allowed where it is taken.
pub open spec fn system_run(plans: Seq<Seq<WriteView>>, s: System, turns: Seq<Turn>) -> bool
    decreases turns.len(),
{
    turns.len() == 0 || {
        &&& system_run(plans, s, turns.drop_last())
        &&& system_allows(system_after(plans, s, turns.drop_last()), turns.last())
    }
}

/// The commit of transaction number `who` has reported success.
pub open spec fn reported_success(s: System, who: int) -> bool {
    s.ops[who] matches Some(op) && op.phase == CommitPhaseView::Done(Ok(true))
}

/// Transaction number `i` has begun at `start_ts`.
spec fn began(s: System, i: int, start_ts: u64) -> bool {
    0 <= i < s.ops.len() && s.ops[i] is Some && s.ops[i]->0.start_ts == start_ts
}

// ---- Transactions on different keys all commit ----

/// No two transactions write the same key.
pub open spec fn disjoint(plans: Seq<Seq<WriteView>>) -> bool {
    forall|i: int, j: int, k: Seq<u8>|
        0 <= i < plans.len() && 0 <= j < plans.len() && i != j && #[trigger] last_value(
            plans[i],
            k,
        ) is Some ==> #[trigger] last_value(plans[j], k) is None
}

/// The oracle does not fail, and somebody else whom the store serves touches none of the keys
/// that the transactions write.
pub open spec fn turn_undisturbing(plans: Seq<Seq<WriteView>>, s: System, turn: Turn) -> bool {
    match turn {
        Turn::Step { event, .. } => event is Timestamp ==> event->Timestamp_0 is Ok,
        Turn::Other(a) => forall|i: int, k: Seq<u8>|
            0 <= i < plans.len() && #[trigger] last_value(plans[i], k) is Some ==> !may_touch(
                s.table,
                a,
                k,
            ),
        _ => true,
    }
}

/// Every turn of the series leaves the transactions undisturbed.
pub open spec fn turns_undisturbing(
    plans: Seq<Seq<WriteView>>,
    s: System,
    turns: Seq<Turn>,
) -> bool
    decreases turns.len(),
{
    turns.len() == 0 || {
        &&& turns_undisturbing(plans, s, turns.drop_last())
        &&& turn_undisturbing(plans, system_after(plans, s, turns.drop_last()), turns.last())
    }
}

/// The number of answers that transaction number `who` gets in a series of turns.
pub open spec fn steps_of(turns: Seq<Turn>, who: int) -> nat
    decreases turns.len(),
{
    if turns.len() == 0 {
        0
    } else {
        steps_of(turns.drop_last(), who) + match turns.last() {
            Turn::Step { who: w, .. } if w == who => 1nat,
            _ => 0nat,
        }
    }
}

/// `key` is neither locked nor committed.
spec fn untouched(t: TableView, key: Seq<u8>) -> bool {
    forall|ts: u64|
        #![trigger t.lock.contains_key((key, ts))]
        #![trigger t.write.contains_key((key, ts))]
        !t.lock.contains_key((key, ts)) && !t.write.contains_key((key, ts))
}

/// A commit in progress writes exactly the keys of its plan.
spec fn writes_plan(op: CommitView, plan: Seq<WriteView>) -> bool {
    forall|k: Seq<u8>| #[trigger]
        keys_of(op.writes).contains(k) <==> last_value(plan, k) is Some
}

spec fn apart_inv_at(plans: Seq<Seq<WriteView>>, s: System, turns: Seq<Turn>, i: int) -> bool {
    match s.ops[i] {
        Some(op) => {
            &&& undisturbed_inv(World { op, table: s.table })
            &&& writes_plan(op, plans[i])
            &&& commit_rank(op) + steps_of(turns, i) <= commit_rank(
                optimistic(0, plans[i]).commit_op(),
            )
        },
        None => {
            &&& forall|k: Seq<u8>| #[trigger]
                last_value(plans[i], k) is Some ==> untouched(s.table, k)
            &&& steps_of(turns, i) == 0
        },
    }
}

spec fn apart_inv(plans: Seq<Seq<WriteView>>, s: System, turns: Seq<Turn>) -> bool {
    &&& s.ops.len() == plans.len()
    &&& forall|i: int|
        #![trigger s.ops[i]]
        0 <= i < plans.len() ==> apart_inv_at(plans, s, turns, i)
}

proof fn lemma_untouched_is_available(t: TableView, key: Seq<u8>, ts: u64)
    requires
        untouched(t, key),
    ensures
        !blocked(t, key, ts),
        !committed_after(t, key, ts),
{
    lemma_latest(t.lock, key, 0, u64::MAX);
    if let Some(held_ts) = lock_ts(t, key) {
        assert(t.lock.contains_key((key, held_ts)));
    }
}

proof fn lemma_coalesced_writes_plan(start_ts: u64, plan: Seq<WriteView>)
    ensures
        writes_plan(optimistic(start_ts, plan).commit_op(), plan),
        commit_rank(optimistic(start_ts, plan).commit_op()) == commit_rank(
            optimistic(0, plan).commit_op(),
        ),
{
    lemma_coalesced(plan);
    lemma_distinct_keys(plan);
}

/// A request that touches none of the keys of a plan leaves its transaction as it is.
proof fn lemma_request_keeps_apart_inv_at(
    plans: Seq<Seq<WriteView>>,
    s: System,
    turns: Seq<Turn>,
    a: ActionView,
    i: int,
)
    requires
        apart_inv_at(plans, s, turns, i),
        forall|k: Seq<u8>| #[trigger]
            last_value(plans[i], k) is Some ==> !may_touch(s.table, a, k),
    ensures
        apart_inv_at(plans, (System { table: applied(s.table, a), ..s }), turns, i),
{
    match s.ops[i] {
        Some(op) => {
            let w = World { op, table: s.table };
            assert(keeps_off(w.table, a, keys_of(op.writes))) by {
                assert forall|k: Seq<u8>| #[trigger] keys_of(op.writes).contains(
                    k,
                ) implies !may_touch(w.table, a, k) by {
                    assert(last_value(plans[i], k) is Some);
                }
            }
            lemma_other_keeps_undisturbed_inv(w, a);
            assert(world_next(w, Move::Other(a)) == (World { op, table: applied(s.table, a) }));
        },
        None => {
            assert forall|k: Seq<u8>| #[trigger] last_value(plans[i], k) is Some implies untouched(
                applied(s.table, a),
                k,
            ) by {
                assert(untouched(s.table, k));
                lemma_requests_leave_other_keys(s.table, a, k);
                let u = applied(s.table, a);
                assert forall|ts: u64|
                    #![trigger u.lock.contains_key((k, ts))]
                    #![trigger u.write.contains_key((k, ts))]
                    !u.lock.contains_key((k, ts)) && !u.write.contains_key((k, ts)) by {
                    assert(!s.table.lock.contains_key((k, ts)));
                }
            }
        },
    }
}

proof fn lemma_turn_keeps_apart_inv(
    plans: Seq<Seq<WriteView>>,
    s: System,
    turns: Seq<Turn>,
    turn: Turn,
)
    requires
        disjoint(plans),
        apart_inv(plans, s, turns),
        system_allows(s, turn),
        turn_undisturbing(plans, s, turn),
    ensures
        apart_inv(plans, system_next(plans, s, turn), turns.push(turn)),
{
    let u = system_next(plans, s, turn);
    let more = turns.push(turn);
    assert(more.drop_last() =~= turns);
    assert forall|i: int| #![trigger u.ops[i]] 0 <= i < plans.len() implies apart_inv_at(
        plans,
        u,
        more,
        i,
    ) by {
        assert(s.ops[i] is Some || s.ops[i] is None);
        match turn {
            Turn::Begin { who, start_ts } => {
                if i == who {
                    let client = optimistic(start_ts, plans[who]);
                    assert forall|k: Seq<u8>| #[trigger]
                        last_value(client.writes, k) is Some implies available(
                        client,
                        s.table,
                        k,
                    ) by {
                        lemma_untouched_is_available(s.table, k, start_ts);
                    }
                    lemma_undisturbed_start(client, s.table);
                    lemma_coalesced_writes_plan(start_ts, plans[who]);
                    assert(world_start(client, s.table) == (World {
                        op: client.commit_op(),
                        table: s.table,
                    }));
                }
            },
            Turn::Step { who, event } => {
                let op = s.ops[who]->0;
                let w = World { op, table: s.table };
                let a = commit_pending(op)->0;
                assert(apart_inv_at(plans, s, turns, who));
                lemma_own_keeps_undisturbed_inv(w, event);
                if i == who {
                    assert(world_next(w, Move::Own(event)) == (World {
                        op: commit_next(op, event),
                        table: u.table,
                    }));
                } else {
                    assert forall|k: Seq<u8>| #[trigger]
                        last_value(plans[i], k) is Some implies !may_touch(s.table, a, k) by {
                        lemma_own_request_stays_on_plan(w, plans[who], k);
                        assert(last_value(plans[who], k) is None);
                    }
                    lemma_request_keeps_apart_inv_at(plans, s, turns, a, i);
                }
            },
            Turn::Issue { .. } => {},
            Turn::Other(a) => {
                lemma_request_keeps_apart_inv_at(plans, s, turns, a, i);
            },
        }
    }
}

/// What an undisturbed commit asks for touches its own keys only.
proof fn lemma_own_request_stays_on_plan(w: World, plan: Seq<WriteView>, key: Seq<u8>)
    requires
        undisturbed_inv(w),
        writes_plan(w.op, plan),
        commit_pending(w.op) is Some,
    ensures
        may_touch(w.table, commit_pending(w.op)->0, key) ==> last_value(plan, key) is Some,
{
    lemma_undisturbed_phase(w);
    match w.op.phase {
        CommitPhaseView::Prewriting { index, .. } => {
            assert(keys_of(w.op.writes)[index as int] == w.op.writes[index as int].0);
            assert(keys_of(w.op.writes).contains(w.op.writes[index as int].0));
        },
        CommitPhaseView::Committing { index, .. } => {
            assert(keys_of(w.op.writes)[index as int] == w.op.writes[index as int].0);
            assert(keys_of(w.op.writes).contains(w.op.writes[index as int].0));
        },
        _ => {},
    }
}

proof fn lemma_apart_inv(plans: Seq<Seq<WriteView>>, turns: Seq<Turn>)
    requires
        disjoint(plans),
        system_run(plans, system_start(plans.len()), turns),
        turns_undisturbing(plans, system_start(plans.len()), turns),
    ensures
        apart_inv(plans, system_after(plans, system_start(plans.len()), turns), turns),
    decreases turns.len(),
{
    let start = system_start(plans.len());
    if turns.len() > 0 {
        let rest = turns.drop_last();
        lemma_apart_inv(plans, rest);
        lemma_turn_keeps_apart_inv(plans, system_after(plans, start, rest), rest, turns.last());
        assert(rest.push(turns.last()) =~= turns);
    }
}

/// Transactions that write different keys all commit, in any interleaving: none of them ever
/// waits, rolls back or fails, each is over after a bounded number of answers, and it then
/// reports success. Others may use the store beside them, on other keys.
pub proof fn lemma_disjoint_transactions_all_commit(
    plans: Seq<Seq<WriteView>>,
    turns: Seq<Turn>,
    who: int,
)
    requires
        disjoint(plans),
        system_run(plans, system_start(plans.len()), turns),
        turns_undisturbing(plans, system_start(plans.len()), turns),
        0 <= who < plans.len(),
    ensures
        ({
            let end = system_after(plans, system_start(plans.len()), turns);
            &&& end.ops[who] matches Some(op) ==> {
                &&& op.phase matches CommitPhaseView::Done(outcome) ==> outcome == Ok::<
                    bool,
                    Error,
                >(true)
                &&& !(op.phase is Waiting)
                &&& !(op.phase is RollingBack)
            }
            &&& steps_of(turns, who) <= commit_rank(optimistic(0, plans[who]).commit_op())
        }),
{
    let end = system_after(plans, system_start(plans.len()), turns);
    lemma_apart_inv(plans, turns);
    match end.ops[who] {
        Some(op) => {
            lemma_undisturbed_phase(World { op, table: end.table });
            lemma_commit_rank(op);
        },
        None => {
            lemma_undisturbed_start(optimistic(0, plans[who]), TableView::empty());
            lemma_undisturbed_phase(
                world_start(optimistic(0, plans[who]), TableView::empty()),
            );
            lemma_commit_rank(optimistic(0, plans[who]).commit_op());
        },
    }
}

// ---- Of transactions on one key, at least one commits ----

/// The transaction writes `key` and nothing else.
pub open spec fn writes_only(plan: Seq<WriteView>, key: Seq<u8>) -> bool {
    forall|k: Seq<u8>| #[trigger] last_value(plan, k) is Some <==> k == key
}

/// The commit is over.
pub open spec fn is_over(op: Option<CommitView>) -> bool {
    op matches Some(o) && o.phase is Done
}

/// The commit has prewritten its key and not yet asked to commit it in vain.
spec fn leads(op: CommitView) -> bool {
    op.phase is AwaitingTimestamp || op.phase is Committing
}

/// Transaction number `i` has prewritten `key` and still holds its lock.
spec fn holds(s: System, i: int, key: Seq<u8>) -> bool {
    &&& 0 <= i < s.ops.len()
    &&& s.ops[i] matches Some(op)
    &&& leads(op)
    &&& s.table.lock.contains_key((key, op.start_ts))
}

spec fn single_write(op: CommitView, key: Seq<u8>) -> bool {
    &&& commit_valid(op)
    &&& op.writes.len() == 1
    &&& op.writes[0].0 == key
    &&& op.locked_keys.len() == 0
    &&& op.phase matches CommitPhaseView::RollingBack { keys, .. } ==> keys == seq![key]
}

spec fn contest_inv(s: System, key: Seq<u8>) -> bool {
    &&& well_formed(s.table)
    &&& forall|i: int|
        0 <= i < s.ops.len() && (#[trigger] s.ops[i]) is Some ==> single_write(s.ops[i]->0, key)
            && s.ops[i]->0.start_ts <= s.last
    &&& forall|i: int, j: int, ts: u64| #[trigger]
        began(s, i, ts) && #[trigger] began(s, j, ts) ==> i == j
    // A lock on the key is that of a transaction that leads.
    &&& forall|ts: u64| #[trigger]
        s.table.lock.contains_key((key, ts)) ==> exists|i: int| #[trigger]
            began(s, i, ts) && leads(s.ops[i]->0)
    // A commit of the key is that of a transaction that has succeeded.
    &&& forall|c: u64| #[trigger]
        s.table.write.contains_key((key, c)) ==> exists|i: int|
            0 <= i < s.ops.len() && #[trigger] reported_success(s, i)
    // Somebody has succeeded or leads, or nobody has got an answer yet.
    &&& {
        ||| exists|i: int| 0 <= i < s.ops.len() && #[trigger] reported_success(s, i)
        ||| exists|i: int| #[trigger] holds(s, i, key)
        ||| forall|i: int|
            0 <= i < s.ops.len() && (#[trigger] s.ops[i]) is Some ==> s.ops[i]->0.phase is Prewriting
    }
}

proof fn lemma_single_write_start(start_ts: u64, plan: Seq<WriteView>, key: Seq<u8>)
    requires
        writes_only(plan, key),
    ensures
        single_write(optimistic(start_ts, plan).commit_op(), key),
        optimistic(start_ts, plan).commit_op().phase is Prewriting,
{
    lemma_coalesced(plan);
    lemma_distinct_keys(plan);
    let keys = distinct_keys(plan);
    assert(last_value(plan, key) is Some);
    assert(keys.contains(key));
    assert forall|j: int| 0 <= j < keys.len() implies #[trigger] keys[j] == key by {
        assert(keys.contains(keys[j]));
    }
    if keys.len() > 1 {
        assert(keys[0] == keys[1]);
    }
}

/// A turn of somebody else, or of the oracle, changes nothing of the contest.
proof fn lemma_other_turn_keeps_contest(
    plans: Seq<Seq<WriteView>>,
    s: System,
    turn: Turn,
    key: Seq<u8>,
)
    requires
        contest_inv(s, key),
        s.ops.len() == plans.len(),
        plans.len() > 0,
        forall|i: int| 0 <= i < plans.len() ==> writes_only(#[trigger] plans[i], key),
        system_allows(s, turn),
        turn_undisturbing(plans, s, turn),
        !(turn is Step),
    ensures
        contest_inv(system_next(plans, s, turn), key),
{
    let u = system_next(plans, s, turn);
    match turn {
        Turn::Begin { who, start_ts } => {
            lemma_single_write_start(start_ts, plans[who], key);
        },
        Turn::Other(a) => {
            lemma_requests_keep_table_well_formed(s.table, a);
            assert(last_value(plans[0], key) is Some);
            lemma_requests_leave_other_keys(s.table, a, key);
        },
        _ => {},
    }
    assert forall|i: int, ts: u64| #[trigger] began(s, i, ts) implies began(u, i, ts) by {}
    assert forall|i: int|
        0 <= i < s.ops.len() && #[trigger] reported_success(s, i) implies reported_success(u, i) by {}
    assert forall|i: int| #[trigger] holds(s, i, key) implies holds(u, i, key) by {}
    assert forall|i: int, j: int, ts: u64| #[trigger] began(u, i, ts) && #[trigger] began(
        u,
        j,
        ts,
    ) implies i == j by {
        if let Turn::Begin { who, start_ts } = turn {
            if i != who && j != who {
                assert(began(s, i, ts) && began(s, j, ts));
            }
        } else {
            assert(began(s, i, ts) && began(s, j, ts));
        }
    }
    assert forall|ts: u64| #[trigger] u.table.lock.contains_key((key, ts)) implies exists|i: int|
        #[trigger] began(u, i, ts) && leads(u.ops[i]->0) by {
        assert(s.table.lock.contains_key((key, ts)));
        let i = choose|i: int| #[trigger] began(s, i, ts) && leads(s.ops[i]->0);
        assert(began(u, i, ts));
    }
    assert forall|c: u64| #[trigger] u.table.write.contains_key((key, c)) implies exists|i: int|
        0 <= i < u.ops.len() && #[trigger] reported_success(u, i) by {
        assert(s.table.write.contains_key((key, c)));
        let i = choose|i: int| 0 <= i < s.ops.len() && #[trigger] reported_success(s, i);
        assert(reported_success(u, i));
    }
    if exists|i: int| 0 <= i < s.ops.len() && #[trigger] reported_success(s, i) {
        let i = choose|i: int| 0 <= i < s.ops.len() && #[trigger] reported_success(s, i);
        assert(reported_success(u, i));
    } else if exists|i: int| #[trigger] holds(s, i, key) {
        let i = choose|i: int| #[trigger] holds(s, i, key);
        assert(holds(u, i, key));
    } else {
        assert forall|i: int| 0 <= i < u.ops.len() && (#[trigger] u.ops[i]) is Some implies
            u.ops[i]->0.phase is Prewriting by {
            if s.ops[i] is Some {
                assert(s.ops[i]->0.phase is Prewriting);
            }
        }
    }
}

proof fn lemma_step_keeps_contest(
    plans: Seq<Seq<WriteView>>,
    s: System,
    who: int,
    event: Event,
    key: Seq<u8>,
)
    requires
        contest_inv(s, key),
        system_allows(s, Turn::Step { who, event }),
        turn_undisturbing(plans, s, Turn::Step { who, event }),
    ensures
        contest_inv(system_next(plans, s, Turn::Step { who, event }), key),
{
    let u = system_next(plans, s, Turn::Step { who, event });
    let op = s.ops[who]->0;
    let next = commit_next(op, event);
    let a = commit_pending(op)->0;
    let start = op.start_ts;
    assert(single_write(op, key));
    lemma_commit_terminates(op, event);
    lemma_primary_first(op.writes, op.primary);
    lemma_requests_keep_table_well_formed(s.table, a);
    lemma_lock_ts(s.table, key);
    assert(op.locked_keys =~= Seq::<Seq<u8>>::empty());
    reveal(Seq::filter);
    assert(keys_of(op.writes).take(0) =~= Seq::<Seq<u8>>::empty());
    assert(keys_of(op.writes) =~= seq![key]);
    assert(keys_of(op.writes).skip(0) =~= seq![key]);
    assert(single_write(next, key)) by {
        if op.phase is AwaitingTimestamp {
            let ordered = primary_first(op.writes, op.primary);
            assert(op.writes.contains(ordered[0]));
        }
    }
    assert(began(s, who, start));
    assert forall|i: int, ts: u64| #[trigger] began(u, i, ts) <==> began(s, i, ts) by {}
    assert forall|i: int| 0 <= i < s.ops.len() && #[trigger] reported_success(s, i) implies
        reported_success(u, i) by {}
    // Once rolled back or refused, the transaction has no lock.
    if !leads(op) {
        assert(!s.table.lock.contains_key((key, start))) by {
            if s.table.lock.contains_key((key, start)) {
                let i = choose|i: int| #[trigger] began(s, i, start) && leads(s.ops[i]->0);
                assert(i == who);
            }
        }
    }
    let granted = event matches Event::Prewrite(Ok(_));
    assert forall|ts: u64| #[trigger] u.table.lock.contains_key((key, ts)) implies exists|i: int|
        #[trigger] began(u, i, ts) && leads(u.ops[i]->0) by {
        if granted {
            assert(began(u, who, ts));
        } else {
            assert(s.table.lock.contains_key((key, ts)));
            let i = choose|i: int| #[trigger] began(s, i, ts) && leads(s.ops[i]->0);
            assert(began(u, i, ts));
            if i == who && op.phase is Committing {
                assert(!u.table.lock.contains_key((key, ts)));
            }
        }
    }
    assert forall|c: u64| #[trigger] u.table.write.contains_key((key, c)) implies exists|i: int|
        0 <= i < u.ops.len() && #[trigger] reported_success(u, i) by {
        if s.table.write.contains_key((key, c)) {
            let i = choose|i: int| 0 <= i < s.ops.len() && #[trigger] reported_success(s, i);
            assert(reported_success(u, i));
        } else {
            assert(reported_success(u, who));
        }
    }
    if exists|i: int| 0 <= i < s.ops.len() && #[trigger] reported_success(s, i) {
        let i = choose|i: int| 0 <= i < s.ops.len() && #[trigger] reported_success(s, i);
        assert(reported_success(u, i));
    } else {
        assert(!committed_after(s.table, key, start)) by {
            if committed_after(s.table, key, start) {
                let c = choose|c: u64| c > start && #[trigger] s.table.write.contains_key((key, c));
                assert(s.table.write.contains_key((key, c)));
            }
        }
        if granted {
            assert(u.table.lock.contains_key((key, start)));
            assert(holds(u, who, key));
        } else if op.phase is Prewriting {
            // Refused by a live lock: its holder leads.
            assert(blocked(s.table, key, start));
            let ts = lock_ts(s.table, key)->0;
            assert(s.table.lock.contains_key((key, ts)));
            let i = choose|i: int| #[trigger] began(s, i, ts) && leads(s.ops[i]->0);
            assert(i != who);
            assert(holds(u, i, key));
        } else if exists|i: int| #[trigger] holds(s, i, key) {
            let i = choose|i: int| #[trigger] holds(s, i, key);
            if i == who && op.phase is Committing {
                assert(reported_success(u, who));
            } else {
                if i != who {
                    assert(began(s, i, s.ops[i]->0.start_ts));
                    assert(s.ops[i]->0.start_ts != start);
                }
                assert(holds(u, i, key));
            }
        }
    }
}

proof fn lemma_contest_inv(plans: Seq<Seq<WriteView>>, turns: Seq<Turn>, key: Seq<u8>)
    requires
        plans.len() > 0,
        forall|i: int| 0 <= i < plans.len() ==> writes_only(#[trigger] plans[i], key),
        system_run(plans, system_start(plans.len()), turns),
        turns_undisturbing(plans, system_start(plans.len()), turns),
    ensures
        contest_inv(system_after(plans, system_start(plans.len()), turns), key),
        system_after(plans, system_start(plans.len()), turns).ops.len() == plans.len(),
    decreases turns.len(),
{
    if turns.len() == 0 {
        lemma_requests_keep_table_well_formed(TableView::empty(), ActionView::GetTimestamp);
    } else {
        let rest = turns.drop_last();
        let s = system_after(plans, system_start(plans.len()), rest);
        lemma_contest_inv(plans, rest, key);
        match turns.last() {
            Turn::Step { who, event } => lemma_step_keeps_contest(plans, s, who, event, key),
            turn => lemma_other_turn_keeps_contest(plans, s, turn, key),
        }
    }
}

/// Of transactions that all write one key, at least one commits, in any interleaving: when all
/// of them are over, one has reported success. Others may use the store beside them, on other
/// keys.
pub proof fn lemma_some_writer_of_a_key_commits(
    plans: Seq<Seq<WriteView>>,
    turns: Seq<Turn>,
    key: Seq<u8>,
)
    requires
        plans.len() > 0,
        forall|i: int| 0 <= i < plans.len() ==> writes_only(#[trigger] plans[i], key),
        system_run(plans, system_start(plans.len()), turns),
        turns_undisturbing(plans, system_start(plans.len()), turns),
        forall|i: int|
            0 <= i < plans.len() ==> is_over(
                #[trigger] system_after(plans, system_start(plans.len()), turns).ops[i],
            ),
    ensures
        exists|i: int|
            0 <= i < plans.len() && #[trigger] reported_success(
                system_after(plans, system_start(plans.len()), turns),
                i,
            ),
{
    let end = system_after(plans, system_start(plans.len()), turns);
    lemma_contest_inv(plans, turns, key);
    assert(is_over(end.ops[0]));
    if exists|i: int| #[trigger] holds(end, i, key) {
        let i = choose|i: int| #[trigger] holds(end, i, key);
        assert(is_over(end.ops[i]));
    }
}

// ---- Only values of transactions that commit are read ----

/// The store has acknowledged a commit of transaction number `who`.
pub open spec fn acknowledges(turn: Turn, who: int) -> bool {
    turn matches Turn::Step { who: w, event: Event::Commit(Ok(response)) } && w == who
        && response.ok
}

/// In one of the turns the store has acknowledged a commit of transaction number `who`.
pub open spec fn has_committed(turns: Seq<Turn>, who: int) -> bool {
    exists|t: int| 0 <= t < turns.len() && #[trigger] acknowledges(turns[t], who)
}

/// All that others do is read.
pub open spec fn others_read(turns: Seq<Turn>) -> bool {
    forall|t: int| 0 <= t < turns.len() ==> (#[trigger] turns[t] matches Turn::Other(a) ==> a is Get)
}

/// A commit in progress has the writes of its plan, in some order.
spec fn op_inv(op: CommitView, plan: Seq<WriteView>) -> bool {
    &&& commit_valid(op)
    &&& op.locked_keys.len() == 0
    &&& op.writes.len() == coalesced(plan).len()
    &&& forall|m: int| 0 <= m < op.writes.len() ==> coalesced(plan).contains(#[trigger] op.writes[m])
    &&& forall|m: int|
        0 <= m < op.writes.len() ==> op.writes.contains(#[trigger] coalesced(plan)[m])
}

spec fn ops_inv(plans: Seq<Seq<WriteView>>, s: System) -> bool {
    &&& s.ops.len() == plans.len()
    &&& forall|i: int|
        0 <= i < s.ops.len() && (#[trigger] s.ops[i]) is Some ==> op_inv(s.ops[i]->0, plans[i])
            && s.ops[i]->0.start_ts <= s.last
    &&& forall|i: int, j: int, ts: u64| #[trigger]
        began(s, i, ts) && #[trigger] began(s, j, ts) ==> i == j
}

/// Every lock is a prewrite lock.
spec fn locks_inv(s: System) -> bool {
    forall|r: KeyView| #[trigger]
        s.table.lock.contains_key(r) ==> (decoded_lock(s.table.lock[r]) matches Some((_, p)) && !p)
}

/// Every staged value is one that its transaction writes.
spec fn data_inv(s: System) -> bool {
    forall|r: KeyView| #[trigger]
        s.table.data.contains_key(r) ==> exists|i: int| #[trigger]
            began(s, i, r.1) && s.ops[i]->0.writes.contains((r.0, s.table.data[r]->Bytes_0))
}

/// Transaction number `i` has committed; with a single key to commit, it has said so.
spec fn settled(plans: Seq<Seq<WriteView>>, s: System, turns: Seq<Turn>, i: int) -> bool {
    has_committed(turns, i) && (coalesced(plans[i]).len() == 1 ==> reported_success(s, i))
}

/// Behind every commit record are a value and a transaction that has committed.
spec fn records_inv(plans: Seq<Seq<WriteView>>, s: System, turns: Seq<Turn>) -> bool {
    forall|k: Seq<u8>, c: u64, ts: u64| #[trigger]
        points_to(s.table.write, k, c, ts) ==> {
            &&& s.table.data.contains_key((k, ts))
            &&& !s.table.lock.contains_key((k, ts))
            &&& exists|i: int| #[trigger] began(s, i, ts) && settled(plans, s, turns, i)
        }
}

/// A transaction that still prewrites has committed nothing.
spec fn unsent_inv(s: System) -> bool {
    forall|i: int|
        0 <= i < s.ops.len() && (#[trigger] s.ops[i] matches Some(op) && (op.phase is Prewriting
            || op.phase is Waiting)) ==> nothing_committed(s.table, s.ops[i]->0.start_ts)
}

/// `key` has a commit record at or before `ts`.
spec fn recorded(t: TableView, key: Seq<u8>, ts: int) -> bool {
    exists|c: u64| c <= ts && #[trigger] t.write.contains_key((key, c))
}

/// What a commit has been told is committed has its commit record.
spec fn progress_at(s: System, op: CommitView) -> bool {
    match op.phase {
        CommitPhaseView::Committing { commit_ts, index } => {
            &&& commit_ts <= s.last
            &&& forall|m: int|
                0 <= m < index ==> recorded(s.table, (#[trigger] op.writes[m]).0, s.last)
        },
        CommitPhaseView::RollingBack { outcome, .. } => outcome != Ok::<bool, Error>(true),
        CommitPhaseView::Done(outcome) => outcome == Ok::<bool, Error>(true) ==> forall|m: int|
            0 <= m < op.writes.len() ==> recorded(s.table, (#[trigger] op.writes[m]).0, s.last),
        _ => true,
    }
}

spec fn progress_inv(s: System) -> bool {
    forall|i: int|
        0 <= i < s.ops.len() && (#[trigger] s.ops[i]) is Some ==> progress_at(s, s.ops[i]->0)
}

spec fn read_inv(plans: Seq<Seq<WriteView>>, s: System, turns: Seq<Turn>) -> bool {
    &&& well_formed(s.table)
    &&& ops_inv(plans, s)
    &&& locks_inv(s)
    &&& data_inv(s)
    &&& records_inv(plans, s, turns)
    &&& unsent_inv(s)
    &&& progress_inv(s)
}

/// A request that takes no pessimistic lock changes the table in few ways.
proof fn lemma_table_change(t: TableView, a: ActionView)
    requires
        well_formed(t),
        !(a is PessimisticLock),
    ensures
        forall|r: KeyView| #[trigger]
            applied(t, a).lock.contains_key(r) ==> (t.lock.contains_key(r) && applied(t, a).lock[r]
                == t.lock[r]) || (a matches ActionView::Prewrite { key, start_ts, primary, .. } && r
                == (key, start_ts) && applied(t, a).lock[r] == encoded_lock(
                primary_or_key(primary, key),
                false,
            )),
        forall|r: KeyView| #[trigger]
            applied(t, a).data.contains_key(r) ==> (t.data.contains_key(r) && applied(t, a).data[r]
                == t.data[r]) || (a matches ActionView::Prewrite { key, value, start_ts, .. } && r
                == (key, start_ts) && applied(t, a).data[r] == ValueView::Bytes(value)),
        forall|r: KeyView| #[trigger]
            t.data.contains_key(r) && !t.lock.contains_key(r) ==> applied(t, a).data.contains_key(
                r,
            ),
        forall|r: KeyView| #[trigger]
            t.write.contains_key(r) ==> applied(t, a).write.contains_key(r),
        forall|k: Seq<u8>, c: u64, ts: u64| #[trigger]
            points_to(applied(t, a).write, k, c, ts) ==> {
                ||| points_to(t.write, k, c, ts)
                ||| {
                    &&& t.lock.contains_key((k, ts))
                    &&& !applied(t, a).lock.contains_key((k, ts))
                    &&& applied(t, a).data == t.data
                    &&& {
                        ||| a matches ActionView::Commit { key, start_ts, commit_ts, .. } && k == key
                            && ts == start_ts && c == commit_ts
                        ||| a is Get && exists|p: Seq<u8>| #[trigger] points_to(t.write, p, c, ts)
                    }
                }
            },
{
    match a {
        ActionView::Get { key, start_ts } => {
            lemma_lock_ts(t, key);
            if let Some(ts) = lock_ts(t, key) {
                if let Some((primary, _)) = decoded_lock(t.lock[(key, ts)]) {
                    lemma_earliest_pointer(t.write, primary, ts);
                    if let Some(c) = earliest_pointer(t.write, primary, ts) {
                        assert(points_to(t.write, primary, c, ts));
                    }
                }
            }
        },
        ActionView::Prewrite { key, .. } => {
            lemma_lock_ts(t, key);
        },
        _ => {},
    }
}

/// The request that a turn has the store serve, if any.
spec fn request(s: System, turn: Turn) -> ActionView {
    match turn {
        Turn::Step { who, .. } => commit_pending(s.ops[who]->0)->0,
        Turn::Other(a) => a,
        _ => ActionView::GetTimestamp,
    }
}

/// The turn is allowed, and if it is one of somebody else, it reads.
spec fn read_turn(s: System, turn: Turn) -> bool {
    system_allows(s, turn) && (turn matches Turn::Other(a) ==> a is Get)
}

/// What every turn does to the table, the commits and the clock.
proof fn lemma_turn(plans: Seq<Seq<WriteView>>, s: System, turns: Seq<Turn>, turn: Turn)
    requires
        read_inv(plans, s, turns),
        read_turn(s, turn),
    ensures
        system_next(plans, s, turn).table == applied(s.table, request(s, turn)),
        !(request(s, turn) is PessimisticLock),
        s.last <= system_next(plans, s, turn).last,
        ops_inv(plans, system_next(plans, s, turn)),
        forall|i: int, ts: u64| #[trigger]
            began(s, i, ts) ==> began(system_next(plans, s, turn), i, ts),
        forall|i: int, w: WriteView|
            0 <= i < s.ops.len() && (#[trigger] s.ops[i]) is Some
                && #[trigger] s.ops[i]->0.writes.contains(w) ==> system_next(
                plans,
                s,
                turn,
            ).ops[i]->0.writes.contains(w),
        forall|i: int|
            0 <= i < s.ops.len() && #[trigger] reported_success(s, i) ==> reported_success(
                system_next(plans, s, turn),
                i,
            ),
{
    let u = system_next(plans, s, turn);
    match turn {
        Turn::Begin { who, start_ts } => {
            lemma_coalesced(plans[who]);
            let op = optimistic(start_ts, plans[who]).commit_op();
            assert(op_inv(op, plans[who]));
        },
        Turn::Step { who, event } => {
            let op = s.ops[who]->0;
            let next = commit_next(op, event);
            lemma_commit_terminates(op, event);
            lemma_primary_first(op.writes, op.primary);
            assert(op_inv(op, plans[who]));
            assert forall|w: WriteView| #[trigger] op.writes.contains(w) implies next.writes.contains(
                w,
            ) by {
                let m = choose|m: int| 0 <= m < op.writes.len() && op.writes[m] == w;
                assert(op.writes[m] == w);
            }
            assert forall|m: int| 0 <= m < next.writes.len() implies coalesced(plans[who]).contains(
                #[trigger] next.writes[m],
            ) by {
                if next.writes != op.writes {
                    assert(op.writes.contains(next.writes[m]));
                    let j = choose|j: int|
                        0 <= j < op.writes.len() && op.writes[j] == next.writes[m];
                    assert(coalesced(plans[who]).contains(op.writes[j]));
                }
            }
            assert forall|m: int| 0 <= m < next.writes.len() implies next.writes.contains(
                #[trigger] coalesced(plans[who])[m],
            ) by {
                assert(op.writes.contains(coalesced(plans[who])[m]));
            }
            assert(op_inv(next, plans[who]));
        },
        _ => {},
    }
    assert forall|i: int, j: int, ts: u64| #[trigger] began(u, i, ts) && #[trigger] began(
        u,
        j,
        ts,
    ) implies i == j by {
        if let Turn::Begin { who, start_ts } = turn {
            if i != who && j != who {
                assert(began(s, i, ts) && began(s, j, ts));
            }
        } else {
            assert(began(s, i, ts) && began(s, j, ts));
        }
    }
}

proof fn lemma_turn_keeps_cells(
    plans: Seq<Seq<WriteView>>,
    s: System,
    turns: Seq<Turn>,
    turn: Turn,
)
    requires
        read_inv(plans, s, turns),
        read_turn(s, turn),
    ensures
        well_formed(system_next(plans, s, turn).table),
        locks_inv(system_next(plans, s, turn)),
        data_inv(system_next(plans, s, turn)),
{
    let u = system_next(plans, s, turn);
    let a = request(s, turn);
    lemma_turn(plans, s, turns, turn);
    lemma_requests_keep_table_well_formed(s.table, a);
    lemma_table_change(s.table, a);
    if let ActionView::Prewrite { key, primary, .. } = a {
        lemma_lock_round_trip(primary_or_key(primary, key), false);
    }
    assert forall|r: KeyView| #[trigger] u.table.data.contains_key(r) implies exists|i: int|
        #[trigger] began(u, i, r.1) && u.ops[i]->0.writes.contains(
            (r.0, u.table.data[r]->Bytes_0),
        ) by {
        if s.table.data.contains_key(r) && u.table.data[r] == s.table.data[r] {
            let i = choose|i: int| #[trigger]
                began(s, i, r.1) && s.ops[i]->0.writes.contains((r.0, s.table.data[r]->Bytes_0));
            assert(began(u, i, r.1));
        } else if let Turn::Step { who, event } = turn {
            let op = s.ops[who]->0;
            assert(op_inv(op, plans[who]));
            if let CommitPhaseView::Prewriting { index, .. } = op.phase {
                let write = op.writes[index as int];
                assert(op.writes.contains(write));
                assert(began(s, who, r.1));
                assert(write == (r.0, u.table.data[r]->Bytes_0));
            }
        }
    }
}

proof fn lemma_turn_keeps_records(
    plans: Seq<Seq<WriteView>>,
    s: System,
    turns: Seq<Turn>,
    turn: Turn,
)
    requires
        read_inv(plans, s, turns),
        read_turn(s, turn),
    ensures
        records_inv(plans, system_next(plans, s, turn), turns.push(turn)),
        unsent_inv(system_next(plans, s, turn)),
{
    let u = system_next(plans, s, turn);
    let more = turns.push(turn);
    let a = request(s, turn);
    lemma_turn(plans, s, turns, turn);
    lemma_table_change(s.table, a);
    assert forall|i: int| #[trigger] has_committed(turns, i) implies has_committed(more, i) by {
        let t = choose|t: int| 0 <= t < turns.len() && #[trigger] acknowledges(turns[t], i);
        assert(acknowledges(more[t], i));
    }
    assert forall|k: Seq<u8>, c: u64, ts: u64| #[trigger] points_to(u.table.write, k, c, ts) implies {
        &&& u.table.data.contains_key((k, ts))
        &&& !u.table.lock.contains_key((k, ts))
        &&& exists|i: int| #[trigger] began(u, i, ts) && settled(plans, u, more, i)
    } by {
        if points_to(s.table.write, k, c, ts) {
            let i = choose|i: int| #[trigger] began(s, i, ts) && settled(plans, s, turns, i);
            assert(began(u, i, ts));
            assert(settled(plans, u, more, i));
            assert(s.table.data.contains_key((k, ts)));
            if u.table.lock.contains_key((k, ts)) {
                if let Turn::Step { who, event } = turn {
                    assert(began(s, who, ts));
                    assert(nothing_committed(s.table, ts));
                }
            }
        } else {
            assert(s.table.lock.contains_key((k, ts)));
            assert(s.table.data.contains_key((k, ts)));
            match turn {
                Turn::Step { who, event } => {
                    let op = s.ops[who]->0;
                    assert(began(s, who, ts));
                    assert(acknowledges(more[turns.len() as int], who));
                    assert(op_inv(op, plans[who]));
                    assert(settled(plans, u, more, who));
                },
                _ => {
                    let p = choose|p: Seq<u8>| #[trigger] points_to(s.table.write, p, c, ts);
                    assert(points_to(s.table.write, p, c, ts));
                    let i = choose|i: int| #[trigger]
                        began(s, i, ts) && settled(plans, s, turns, i);
                    assert(began(u, i, ts));
                    assert(settled(plans, u, more, i));
                },
            }
        }
    }
    assert forall|i: int|
        0 <= i < u.ops.len() && (#[trigger] u.ops[i] matches Some(op) && (op.phase is Prewriting
            || op.phase is Waiting)) implies nothing_committed(u.table, u.ops[i]->0.start_ts) by {
        let start = u.ops[i]->0.start_ts;
        assert forall|k: Seq<u8>, c: u64| !#[trigger] points_to(u.table.write, k, c, start) by {
            if points_to(u.table.write, k, c, start) {
                if points_to(s.table.write, k, c, start) {
                    let j = choose|j: int| #[trigger]
                        began(s, j, start) && settled(plans, s, turns, j);
                    assert(began(u, j, start) && began(u, i, start));
                    assert(i == j);
                    assert(s.ops[i] is Some);
                    let before = s.ops[i]->0;
                    assert(before.phase is Prewriting || before.phase is Waiting);
                    assert(nothing_committed(s.table, before.start_ts));
                } else if let Turn::Step { who, event } = turn {
                    assert(began(u, who, start) && began(u, i, start));
                } else {
                    let p = choose|p: Seq<u8>| #[trigger] points_to(s.table.write, p, c, start);
                    assert(points_to(s.table.write, p, c, start));
                    assert(s.ops[i] is Some);
                    assert(nothing_committed(s.table, s.ops[i]->0.start_ts));
                }
            }
        }
    }
}

proof fn lemma_turn_keeps_progress(
    plans: Seq<Seq<WriteView>>,
    s: System,
    turns: Seq<Turn>,
    turn: Turn,
)
    requires
        read_inv(plans, s, turns),
        read_turn(s, turn),
    ensures
        progress_inv(system_next(plans, s, turn)),
        forall|k: Seq<u8>, ts: int| #[trigger]
            recorded(s.table, k, ts) ==> recorded(system_next(plans, s, turn).table, k, ts),
{
    let u = system_next(plans, s, turn);
    lemma_turn(plans, s, turns, turn);
    lemma_table_change(s.table, request(s, turn));
    assert forall|k: Seq<u8>, ts: int, later: int| #[trigger] recorded(s.table, k, ts) && ts
        <= later implies #[trigger] recorded(u.table, k, later) by {
        let c = choose|c: u64| c <= ts && #[trigger] s.table.write.contains_key((k, c));
        assert(u.table.write.contains_key((k, c)));
    }
    assert forall|i: int| 0 <= i < u.ops.len() && (#[trigger] u.ops[i]) is Some implies progress_at(
        u,
        u.ops[i]->0,
    ) by {
        let op = u.ops[i]->0;
        match turn {
            Turn::Begin { who, start_ts } if who == i => {},
            Turn::Step { who, event } if who == i => {
                let before = s.ops[i]->0;
                assert(op_inv(before, plans[i]));
                assert(progress_at(s, before));
                if let CommitPhaseView::Committing { commit_ts, index } = before.phase {
                    if acknowledges(turn, who) {
                        let key = before.writes[index as int].0;
                        assert(u.table.write.contains_key((key, commit_ts)));
                        assert(recorded(u.table, key, u.last));
                        assert forall|m: int| 0 <= m <= index implies recorded(
                            u.table,
                            (#[trigger] op.writes[m]).0,
                            u.last,
                        ) by {
                            if m < index {
                                assert(recorded(s.table, before.writes[m].0, s.last));
                            }
                        }
                    }
                }
            },
            _ => {
                assert(s.ops[i] == u.ops[i]);
                assert(progress_at(s, op));
                assert forall|m: int|
                    0 <= m < op.writes.len() && recorded(
                        s.table,
                        (#[trigger] op.writes[m]).0,
                        s.last,
                    ) implies recorded(u.table, op.writes[m].0, u.last) by {}
            },
        }
    }
}

proof fn lemma_read_inv(plans: Seq<Seq<WriteView>>, turns: Seq<Turn>)
    requires
        system_run(plans, system_start(plans.len()), turns),
        others_read(turns),
    ensures
        read_inv(plans, system_after(plans, system_start(plans.len()), turns), turns),
    decreases turns.len(),
{
    let start = system_start(plans.len());
    if turns.len() == 0 {
        lemma_requests_keep_table_well_formed(TableView::empty(), ActionView::GetTimestamp);
    } else {
        let rest = turns.drop_last();
        let turn = turns.last();
        let s = system_after(plans, start, rest);
        assert forall|t: int| 0 <= t < rest.len() implies (
        #[trigger] rest[t] matches Turn::Other(a) ==> a is Get) by {
            assert(rest[t] == turns[t]);
        }
        assert(turns[turns.len() - 1] == turn);
        lemma_read_inv(plans, rest);
        assert(rest.push(turn) =~= turns);
        lemma_turn(plans, s, rest, turn);
        lemma_turn_keeps_cells(plans, s, rest, turn);
        lemma_turn_keeps_records(plans, s, rest, turn);
        lemma_turn_keeps_progress(plans, s, rest, turn);
    }
}

proof fn lemma_recorded_lasts(
    plans: Seq<Seq<WriteView>>,
    turns: Seq<Turn>,
    m: int,
    key: Seq<u8>,
    ts: int,
)
    requires
        system_run(plans, system_start(plans.len()), turns),
        others_read(turns),
        0 <= m <= turns.len(),
        recorded(system_after(plans, system_start(plans.len()), turns.take(m)).table, key, ts),
    ensures
        recorded(system_after(plans, system_start(plans.len()), turns).table, key, ts),
    decreases turns.len(),
{
    let start = system_start(plans.len());
    if m == turns.len() {
        assert(turns.take(m) =~= turns);
    } else {
        let rest = turns.drop_last();
        assert(rest.take(m) =~= turns.take(m));
        assert forall|t: int| 0 <= t < rest.len() implies (
        #[trigger] rest[t] matches Turn::Other(a) ==> a is Get) by {
            assert(rest[t] == turns[t]);
        }
        assert(turns[turns.len() - 1] == turns.last());
        lemma_recorded_lasts(plans, rest, m, key, ts);
        lemma_read_inv(plans, rest);
        lemma_turn_keeps_progress(plans, system_after(plans, start, rest), rest, turns.last());
    }
}

proof fn lemma_prefix_runs(plans: Seq<Seq<WriteView>>, s: System, turns: Seq<Turn>, m: int)
    requires
        system_run(plans, s, turns),
        others_read(turns),
        0 <= m <= turns.len(),
    ensures
        system_run(plans, s, turns.take(m)),
        others_read(turns.take(m)),
    decreases turns.len(),
{
    if m == turns.len() {
        assert(turns.take(m) =~= turns);
    } else {
        let rest = turns.drop_last();
        assert forall|t: int| 0 <= t < rest.len() implies (
        #[trigger] rest[t] matches Turn::Other(a) ==> a is Get) by {
            assert(rest[t] == turns[t]);
        }
        lemma_prefix_runs(plans, s, rest, m);
        assert(rest.take(m) =~= turns.take(m));
    }
}

/// After the first `m` turns, when no timestamp greater than `ts` had been issued, a transaction
/// that writes `key` had reported success.
pub open spec fn succeeded_before(
    plans: Seq<Seq<WriteView>>,
    turns: Seq<Turn>,
    m: int,
    who: int,
    key: Seq<u8>,
    ts: u64,
) -> bool {
    let earlier = system_after(plans, system_start(plans.len()), turns.take(m));
    &&& 0 <= m <= turns.len()
    &&& 0 <= who < plans.len()
    &&& reported_success(earlier, who)
    &&& last_value(plans[who], key) is Some
    &&& earlier.last <= ts
}

/// No value is read that was not successfully committed. Let optimistic transactions and readers
/// share an oracle and a store. Where a get of `key` gives a value that is not empty, or gives
/// any value to a reader that began after some writer of `key` had reported success, that value
/// is the one that some transaction wrote for the key, and the store has acknowledged a commit
/// of that transaction. If the transaction writes a single key, its commit has reported
/// success.
pub proof fn lemma_reads_show_committed_values(
    plans: Seq<Seq<WriteView>>,
    turns: Seq<Turn>,
    key: Seq<u8>,
    read_ts: u64,
    response: GetResponse,
)
    requires
        system_run(plans, system_start(plans.len()), turns),
        others_read(turns),
        replies(
            system_after(plans, system_start(plans.len()), turns).table,
            ActionView::Get { key, start_ts: read_ts },
            Event::Get(Ok(response)),
        ),
        response.value@.len() > 0 || exists|m: int, who: int| #[trigger]
            succeeded_before(plans, turns, m, who, key, read_ts),
    ensures
        exists|i: int|
            {
                &&& 0 <= i < plans.len()
                &&& #[trigger] last_value(plans[i], key) == Some(response.value@)
                &&& has_committed(turns, i)
                &&& coalesced(plans[i]).len() == 1 ==> reported_success(
                    system_after(plans, system_start(plans.len()), turns),
                    i,
                )
            },
{
    let start = system_start(plans.len());
    let s = system_after(plans, start, turns);
    let get = Turn::Other(ActionView::Get { key, start_ts: read_ts });
    let more = turns.push(get);
    let u = system_next(plans, s, get);
    let value = response.value@;
    assert(more.drop_last() =~= turns);
    lemma_read_inv(plans, turns);
    lemma_turn_keeps_cells(plans, s, turns, get);
    lemma_turn_keeps_records(plans, s, turns, get);
    lemma_turn_keeps_progress(plans, s, turns, get);
    lemma_latest(u.table.write, key, 0, read_ts);
    if exists|m: int, who: int| #[trigger] succeeded_before(plans, turns, m, who, key, read_ts) {
        let (m, who) = choose|m: int, who: int| #[trigger]
            succeeded_before(plans, turns, m, who, key, read_ts);
        assert(succeeded_before(plans, turns, m, who, key, read_ts));
        lemma_writer_is_recorded(plans, turns, m, who, key);
        let earlier = system_after(plans, start, turns.take(m));
        let c = choose|c: u64|
            c <= earlier.last && #[trigger] earlier.table.write.contains_key((key, c));
        assert(recorded(earlier.table, key, read_ts as int));
        lemma_recorded_lasts(plans, turns, m, key, read_ts as int);
        assert(recorded(u.table, key, read_ts as int));
    }
    let c = latest(u.table.write, key, 0, read_ts)->0;
    assert(u.table.write.contains_key((key, c)));
    let ts = u.table.write[(key, c)]->Timestamp_0;
    assert(points_to(u.table.write, key, c, ts));
    assert(u.table.data.contains_key((key, ts)));
    let i = choose|i: int| #[trigger] began(u, i, ts) && settled(plans, u, more, i);
    let j = choose|j: int| #[trigger]
        began(u, j, ts) && u.ops[j]->0.writes.contains((key, u.table.data[(key, ts)]->Bytes_0));
    assert(began(s, i, ts) && began(s, j, ts));
    assert(u.ops[i]->0.writes.contains((key, value)));
    lemma_write_is_last_value(u.ops[i]->0, plans[i], key, value);
    let t = choose|t: int| 0 <= t < more.len() && #[trigger] acknowledges(more[t], i);
    assert(acknowledges(turns[t], i));
    assert(has_committed(turns, i));
}

proof fn lemma_write_is_last_value(
    op: CommitView,
    plan: Seq<WriteView>,
    key: Seq<u8>,
    value: Seq<u8>,
)
    requires
        op_inv(op, plan),
        op.writes.contains((key, value)),
    ensures
        last_value(plan, key) == Some(value),
{
    lemma_coalesced(plan);
    lemma_distinct_keys(plan);
    let m = choose|m: int| 0 <= m < op.writes.len() && op.writes[m] == (key, value);
    assert(coalesced(plan).contains(op.writes[m]));
    let j = choose|j: int| 0 <= j < coalesced(plan).len() && coalesced(plan)[j] == (key, value);
    assert(distinct_keys(plan)[j] == key);
    assert(distinct_keys(plan).contains(key));
}

proof fn lemma_writer_is_recorded(
    plans: Seq<Seq<WriteView>>,
    turns: Seq<Turn>,
    m: int,
    who: int,
    key: Seq<u8>,
)
    requires
        system_run(plans, system_start(plans.len()), turns),
        others_read(turns),
        0 <= m <= turns.len(),
        0 <= who < plans.len(),
        reported_success(system_after(plans, system_start(plans.len()), turns.take(m)), who),
        last_value(plans[who], key) is Some,
    ensures
        ({
            let earlier = system_after(plans, system_start(plans.len()), turns.take(m));
            recorded(earlier.table, key, earlier.last)
        }),
{
    let earlier = system_after(plans, system_start(plans.len()), turns.take(m));
    let plan = plans[who];
    lemma_prefix_runs(plans, system_start(plans.len()), turns, m);
    lemma_read_inv(plans, turns.take(m));
    let op = earlier.ops[who]->0;
    assert(op_inv(op, plan));
    assert(progress_at(earlier, op));
    let l = lemma_write_of_key(op, plan, key);
    assert(recorded(earlier.table, op.writes[l].0, earlier.last));
}

// ---- Of overlapping transactions on one key, at most one commits ----

/// The oracle issues `ts` to the commit of transaction number `who`.
pub open spec fn issues(turn: Turn, who: int, ts: u64) -> bool {
    turn matches Turn::Step { who: w, event: Event::Timestamp(Ok(c)) } && w == who && c == ts
}

/// `ts` is the commit timestamp of transaction number `who`.
pub open spec fn commits_at(turns: Seq<Turn>, who: int, ts: u64) -> bool {
    exists|t: int| 0 <= t < turns.len() && #[trigger] issues(turns[t], who, ts)
}

/// Commit timestamps belong to one transaction each, which has asked for them once.
spec fn stamps_inv(s: System, turns: Seq<Turn>) -> bool {
    &&& forall|i: int, c: u64| #[trigger]
        commits_at(turns, i, c) ==> {
            &&& 0 <= i < s.ops.len()
            &&& s.ops[i] is Some
            &&& c <= s.last
            &&& match s.ops[i]->0.phase {
                CommitPhaseView::Committing { commit_ts, .. } => commit_ts == c,
                CommitPhaseView::RollingBack { .. } | CommitPhaseView::Done(_) => true,
                _ => false,
            }
        }
    &&& forall|i: int, j: int, c: u64| #[trigger]
        commits_at(turns, i, c) && #[trigger] commits_at(turns, j, c) ==> i == j
    &&& forall|i: int|
        0 <= i < s.ops.len() && (#[trigger] s.ops[i]) is Some ==> (
        s.ops[i]->0.phase matches CommitPhaseView::Committing { commit_ts, .. } ==> commits_at(
            turns,
            i,
            commit_ts,
        ))
}

/// A commit record is one of the transaction that its timestamp was issued to.
spec fn owners_inv(s: System, turns: Seq<Turn>) -> bool {
    forall|k: Seq<u8>, c: u64, ts: u64| #[trigger]
        points_to(s.table.write, k, c, ts) ==> exists|i: int| #[trigger]
            began(s, i, ts) && commits_at(turns, i, c)
}

/// What a commit has been told is committed has its commit record.
spec fn wins_at(s: System, turns: Seq<Turn>, i: int) -> bool {
    let op = s.ops[i]->0;
    match op.phase {
        CommitPhaseView::Committing { commit_ts, index } => forall|m: int|
            0 <= m < index ==> points_to(
                s.table.write,
                (#[trigger] op.writes[m]).0,
                commit_ts,
                op.start_ts,
            ),
        CommitPhaseView::Done(outcome) => outcome == Ok::<bool, Error>(true) ==> forall|
            m: int,
            c: u64,
        |
            0 <= m < op.writes.len() && #[trigger] commits_at(turns, i, c) ==> points_to(
                s.table.write,
                (#[trigger] op.writes[m]).0,
                c,
                op.start_ts,
            ),
        _ => true,
    }
}

spec fn wins_inv(s: System, turns: Seq<Turn>) -> bool {
    forall|i: int|
        0 <= i < s.ops.len() && (#[trigger] s.ops[i]) is Some ==> wins_at(s, turns, i)
}

/// A transaction that holds a lock started after every commit of the key by another one, and of
/// two that have committed a key, one started after the other had its commit timestamp.
spec fn order_inv(t: TableView) -> bool {
    &&& forall|k: Seq<u8>, c: u64, ts: u64, held: u64|
        #![trigger points_to(t.write, k, c, ts), t.lock.contains_key((k, held))]
        points_to(t.write, k, c, ts) && t.lock.contains_key((k, held)) && held != ts ==> c <= held
    &&& forall|k: Seq<u8>, c: u64, ts: u64, d: u64, other: u64|
        #![trigger points_to(t.write, k, c, ts), points_to(t.write, k, d, other)]
        points_to(t.write, k, c, ts) && points_to(t.write, k, d, other) && ts != other ==> c
            <= other || d <= ts
}

/// Without pessimistic locks, every request keeps commits of a key in order.
proof fn lemma_request_keeps_order(t: TableView, a: ActionView)
    requires
        well_formed(t),
        forall|r: KeyView| #[trigger]
            t.lock.contains_key(r) ==> (decoded_lock(t.lock[r]) matches Some((_, p)) && !p),
        !(a is PessimisticLock),
        order_inv(t),
    ensures
        order_inv(applied(t, a)),
{
    let u = applied(t, a);
    lemma_table_change(t, a);
    assert forall|k: Seq<u8>, c: u64, ts: u64, held: u64|
        #![trigger points_to(u.write, k, c, ts), u.lock.contains_key((k, held))]
        points_to(u.write, k, c, ts) && u.lock.contains_key((k, held)) && held != ts implies c
        <= held by {
        lemma_lock_ts(t, k);
        if points_to(t.write, k, c, ts) {
            if let ActionView::Prewrite { key, start_ts, .. } = a {
                if k == key && held == start_ts {
                    assert(t.write.contains_key((k, c)));
                }
            }
        } else {
            assert(t.lock.contains_key((k, ts)));
            assert(t.lock.contains_key((k, held)));
        }
    }
    assert forall|k: Seq<u8>, c: u64, ts: u64, d: u64, other: u64|
        #![trigger points_to(u.write, k, c, ts), points_to(u.write, k, d, other)]
        points_to(u.write, k, c, ts) && points_to(u.write, k, d, other) && ts
            != other implies c <= other || d <= ts by {
        lemma_lock_ts(t, k);
        if points_to(t.write, k, c, ts) && !points_to(t.write, k, d, other) {
            assert(t.lock.contains_key((k, other)));
        } else if !points_to(t.write, k, c, ts) && points_to(t.write, k, d, other) {
            assert(t.lock.contains_key((k, ts)));
        } else if !points_to(t.write, k, c, ts) && !points_to(t.write, k, d, other) {
            assert(t.lock.contains_key((k, ts)) && t.lock.contains_key((k, other)));
        }
    }
}

spec fn exclusion_inv(s: System, turns: Seq<Turn>) -> bool {
    &&& stamps_inv(s, turns)
    &&& owners_inv(s, turns)
    &&& wins_inv(s, turns)
    &&& order_inv(s.table)
}

proof fn lemma_turn_keeps_stamps(
    plans: Seq<Seq<WriteView>>,
    s: System,
    turns: Seq<Turn>,
    turn: Turn,
)
    requires
        read_inv(plans, s, turns),
        read_turn(s, turn),
        stamps_inv(s, turns),
    ensures
        stamps_inv(system_next(plans, s, turn), turns.push(turn)),
        forall|i: int, c: u64| #[trigger]
            commits_at(turns, i, c) ==> commits_at(turns.push(turn), i, c),
        forall|i: int, c: u64| #[trigger]
            commits_at(turns.push(turn), i, c) ==> commits_at(turns, i, c) || issues(turn, i, c),
{
    let u = system_next(plans, s, turn);
    let more = turns.push(turn);
    lemma_turn(plans, s, turns, turn);
    assert forall|i: int, c: u64| #[trigger] commits_at(turns, i, c) implies commits_at(
        more,
        i,
        c,
    ) by {
        let t = choose|t: int| 0 <= t < turns.len() && #[trigger] issues(turns[t], i, c);
        assert(issues(more[t], i, c));
    }
    assert forall|i: int, c: u64| #[trigger] commits_at(more, i, c) implies commits_at(turns, i, c)
        || issues(turn, i, c) by {
        let t = choose|t: int| 0 <= t < more.len() && #[trigger] issues(more[t], i, c);
        if t < turns.len() {
            assert(issues(turns[t], i, c));
        }
    }
    assert forall|i: int, c: u64| issues(turn, i, c) implies #[trigger] commits_at(more, i, c) by {
        assert(issues(more[turns.len() as int], i, c));
    }
    if let Turn::Step { who, event } = turn {
        assert(op_inv(s.ops[who]->0, plans[who]));
    }
    assert forall|i: int, j: int, c: u64| #[trigger] commits_at(more, i, c)
        && #[trigger] commits_at(more, j, c) implies i == j by {
        if commits_at(turns, i, c) && commits_at(turns, j, c) {
        } else if commits_at(turns, i, c) {
            assert(c <= s.last);
        } else if commits_at(turns, j, c) {
            assert(c <= s.last);
        }
    }
    assert forall|i: int| 0 <= i < u.ops.len() && (#[trigger] u.ops[i]) is Some implies (
    u.ops[i]->0.phase matches CommitPhaseView::Committing { commit_ts, .. } ==> commits_at(
        more,
        i,
        commit_ts,
    )) by {
        if let CommitPhaseView::Committing { commit_ts, .. } = u.ops[i]->0.phase {
            if s.ops[i] is Some && s.ops[i]->0.phase is Committing {
                assert(commits_at(turns, i, commit_ts));
            } else {
                assert(issues(turn, i, commit_ts));
            }
        }
    }
}

proof fn lemma_turn_keeps_wins(
    plans: Seq<Seq<WriteView>>,
    s: System,
    turns: Seq<Turn>,
    turn: Turn,
)
    requires
        read_inv(plans, s, turns),
        read_turn(s, turn),
        exclusion_inv(s, turns),
    ensures
        owners_inv(system_next(plans, s, turn), turns.push(turn)),
        wins_inv(system_next(plans, s, turn), turns.push(turn)),
{
    let u = system_next(plans, s, turn);
    let more = turns.push(turn);
    let a = request(s, turn);
    lemma_turn(plans, s, turns, turn);
    lemma_turn_keeps_stamps(plans, s, turns, turn);
    lemma_table_change(s.table, a);
    assert forall|k: Seq<u8>, c: u64, ts: u64| #[trigger] points_to(u.table.write, k, c, ts) implies
        exists|i: int| #[trigger] began(u, i, ts) && commits_at(more, i, c) by {
        if points_to(s.table.write, k, c, ts) {
            let i = choose|i: int| #[trigger] began(s, i, ts) && commits_at(turns, i, c);
            assert(began(u, i, ts));
        } else {
            match turn {
                Turn::Step { who, event } => {
                    assert(began(s, who, ts));
                    assert(began(u, who, ts));
                    if let CommitPhaseView::Committing { commit_ts, .. } = s.ops[who]->0.phase {
                        assert(commits_at(turns, who, commit_ts));
                        assert(c == commit_ts);
                    }
                },
                _ => {
                    let p = choose|p: Seq<u8>| #[trigger] points_to(s.table.write, p, c, ts);
                    assert(points_to(s.table.write, p, c, ts));
                    let i = choose|i: int| #[trigger] began(s, i, ts) && commits_at(turns, i, c);
                    assert(began(u, i, ts));
                },
            }
        }
    }
    // A commit record is never overwritten by one of another transaction.
    assert forall|k: Seq<u8>, c: u64, ts: u64| #[trigger]
        points_to(s.table.write, k, c, ts) implies points_to(u.table.write, k, c, ts) by {
        let i = choose|i: int| #[trigger] began(s, i, ts) && commits_at(turns, i, c);
        assert(began(u, i, ts));
        assert(u.table.write.contains_key((k, c)));
        let now = u.table.write[(k, c)]->Timestamp_0;
        lemma_turn_keeps_cells(plans, s, turns, turn);
        assert(points_to(u.table.write, k, c, now));
        let j = choose|j: int| #[trigger] began(u, j, now) && commits_at(more, j, c);
        assert(commits_at(more, i, c));
        assert(i == j);
    }
    assert forall|i: int| 0 <= i < u.ops.len() && (#[trigger] u.ops[i]) is Some implies wins_at(
        u,
        more,
        i,
    ) by {
        let op = u.ops[i]->0;
        match turn {
            Turn::Begin { who, start_ts } if who == i => {
                lemma_coalesced(plans[who]);
            },
            Turn::Step { who, event } if who == i => {
                let before = s.ops[i]->0;
                assert(op_inv(before, plans[i]));
                assert(progress_at(s, before));
                assert(wins_at(s, turns, i));
                if let CommitPhaseView::Committing { commit_ts, index } = before.phase {
                    assert(commits_at(turns, i, commit_ts));
                    if acknowledges(turn, who) {
                        let key = before.writes[index as int].0;
                        assert(points_to(u.table.write, key, commit_ts, op.start_ts));
                        assert forall|m: int| 0 <= m <= index implies points_to(
                            u.table.write,
                            (#[trigger] op.writes[m]).0,
                            commit_ts,
                            op.start_ts,
                        ) by {
                            if m < index {
                                assert(points_to(
                                    s.table.write,
                                    before.writes[m].0,
                                    commit_ts,
                                    op.start_ts,
                                ));
                            }
                        }
                        assert forall|c: u64| #[trigger] commits_at(more, i, c) implies c
                            == commit_ts by {
                            assert(commits_at(turns, i, c));
                        }
                    }
                }
            },
            _ => {
                assert(s.ops[i] == u.ops[i]);
                assert(wins_at(s, turns, i));
                assert forall|c: u64| #[trigger] commits_at(more, i, c) implies commits_at(
                    turns,
                    i,
                    c,
                ) by {}
            },
        }
    }
}

proof fn lemma_exclusion_inv(plans: Seq<Seq<WriteView>>, turns: Seq<Turn>)
    requires
        system_run(plans, system_start(plans.len()), turns),
        others_read(turns),
    ensures
        exclusion_inv(system_after(plans, system_start(plans.len()), turns), turns),
    decreases turns.len(),
{
    if turns.len() > 0 {
        let start = system_start(plans.len());
        let rest = turns.drop_last();
        let turn = turns.last();
        let s = system_after(plans, start, rest);
        assert forall|t: int| 0 <= t < rest.len() implies (
        #[trigger] rest[t] matches Turn::Other(a) ==> a is Get) by {
            assert(rest[t] == turns[t]);
        }
        assert(turns[turns.len() - 1] == turn);
        assert(rest.push(turn) =~= turns);
        lemma_read_inv(plans, rest);
        lemma_exclusion_inv(plans, rest);
        lemma_turn(plans, s, rest, turn);
        lemma_turn_keeps_stamps(plans, s, rest, turn);
        lemma_turn_keeps_wins(plans, s, rest, turn);
        lemma_request_keeps_order(s.table, request(s, turn));
    }
}

/// First committer wins: of two optimistic transactions that write one key, and each of which
/// started before the commit timestamp of the other, at most one reports success, in any
/// interleaving and with readers beside them.
pub proof fn lemma_overlapping_writers_do_not_both_commit(
    plans: Seq<Seq<WriteView>>,
    turns: Seq<Turn>,
    key: Seq<u8>,
    i: int,
    j: int,
    commit_i: u64,
    commit_j: u64,
)
    requires
        system_run(plans, system_start(plans.len()), turns),
        others_read(turns),
        0 <= i < plans.len(),
        0 <= j < plans.len(),
        i != j,
        last_value(plans[i], key) is Some,
        last_value(plans[j], key) is Some,
        commits_at(turns, i, commit_i),
        commits_at(turns, j, commit_j),
        ({
            let end = system_after(plans, system_start(plans.len()), turns);
            &&& end.ops[i] matches Some(op) && op.start_ts < commit_j
            &&& end.ops[j] matches Some(op) && op.start_ts < commit_i
        }),
    ensures
        ({
            let end = system_after(plans, system_start(plans.len()), turns);
            !(reported_success(end, i) && reported_success(end, j))
        }),
{
    let end = system_after(plans, system_start(plans.len()), turns);
    lemma_read_inv(plans, turns);
    lemma_exclusion_inv(plans, turns);
    if reported_success(end, i) && reported_success(end, j) {
        let (ts, other) = (end.ops[i]->0.start_ts, end.ops[j]->0.start_ts);
        lemma_success_is_recorded(plans, end, turns, i, key, commit_i);
        lemma_success_is_recorded(plans, end, turns, j, key, commit_j);
        assert(began(end, i, ts) && began(end, j, other));
        assert(ts != other);
        assert(commit_i <= other || commit_j <= ts);
    }
}

proof fn lemma_success_is_recorded(
    plans: Seq<Seq<WriteView>>,
    s: System,
    turns: Seq<Turn>,
    i: int,
    key: Seq<u8>,
    commit_ts: u64,
)
    requires
        read_inv(plans, s, turns),
        exclusion_inv(s, turns),
        0 <= i < plans.len(),
        reported_success(s, i),
        last_value(plans[i], key) is Some,
        commits_at(turns, i, commit_ts),
    ensures
        points_to(s.table.write, key, commit_ts, s.ops[i]->0.start_ts),
{
    let op = s.ops[i]->0;
    let plan = plans[i];
    assert(op_inv(op, plan));
    assert(wins_at(s, turns, i));
    let m = lemma_write_of_key(op, plan, key);
    assert(op.writes[m].0 == key);
}

/// A commit in progress has a write of every key of its plan.
proof fn lemma_write_of_key(op: CommitView, plan: Seq<WriteView>, key: Seq<u8>) -> (m: int)
    requires
        op_inv(op, plan),
        last_value(plan, key) is Some,
    ensures
        0 <= m < op.writes.len(),
        op.writes[m].0 == key,
{
    lemma_coalesced(plan);
    lemma_distinct_keys(plan);
    assert(distinct_keys(plan).contains(key));
    let j = choose|j: int| 0 <= j < distinct_keys(plan).len() && distinct_keys(plan)[j] == key;
    assert(coalesced(plan)[j].0 == key);
    assert(op.writes.contains(coalesced(plan)[j]));
    choose|l: int| 0 <= l < op.writes.len() && op.writes[l] == coalesced(plan)[j]
}

} // verus!
