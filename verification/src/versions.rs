//! One column of the store: cells sorted by user key, and by timestamp within a key.

use vstd::prelude::*;

use crate::bytes::{
    bytes_lt, copy_bytes, lemma_bytes_lt_irreflexive, lemma_bytes_lt_total,
    lemma_bytes_lt_transitive, relate_bytes, same_bytes, Relation,
};
use crate::cell::{Key, KeyView, Value, ValueView};

verus! {

/// The cells of a column.
pub type Versions = Map<KeyView, ValueView>;

/// `ts` is the greatest timestamp from `lo` to `hi` at which `m` has a version of `key`.
pub open spec fn is_latest(m: Versions, key: Seq<u8>, lo: u64, hi: u64, ts: u64) -> bool {
    &&& lo <= ts <= hi
    &&& m.contains_key((key, ts))
    &&& forall|t: u64| lo <= t <= hi && #[trigger] m.contains_key((key, t)) ==> t <= ts
}

/// The greatest timestamp from `lo` to `hi` at which `m` has a version of `key`.
pub open spec fn latest(m: Versions, key: Seq<u8>, lo: u64, hi: u64) -> Option<u64> {
    if exists|ts: u64| is_latest(m, key, lo, hi, ts) {
        Some(choose|ts: u64| is_latest(m, key, lo, hi, ts))
    } else {
        None
    }
}

/// `ts` is the least timestamp at which `m` maps `key` to the pointer `target`.
pub open spec fn is_earliest_pointer(m: Versions, key: Seq<u8>, target: u64, ts: u64) -> bool {
    &&& points_to(m, key, ts, target)
    &&& forall|t: u64| #[trigger] points_to(m, key, t, target) ==> ts <= t
}

/// `m` has a version of `key` at `ts`, and it points to `target`.
pub open spec fn points_to(m: Versions, key: Seq<u8>, ts: u64, target: u64) -> bool {
    m.contains_key((key, ts)) && m[(key, ts)] == ValueView::Timestamp(target)
}

/// The least timestamp at which `m` maps `key` to the pointer `target`.
pub open spec fn earliest_pointer(m: Versions, key: Seq<u8>, target: u64) -> Option<u64> {
    if exists|ts: u64| is_earliest_pointer(m, key, target, ts) {
        Some(choose|ts: u64| is_earliest_pointer(m, key, target, ts))
    } else {
        None
    }
}

/// [`latest`] names a timestamp exactly if there is a version in the range.
pub proof fn lemma_latest(m: Versions, key: Seq<u8>, lo: u64, hi: u64)
    ensures
        latest(m, key, lo, hi) matches Some(ts) ==> is_latest(m, key, lo, hi, ts),
        latest(m, key, lo, hi) is None <==> forall|t: u64|
            lo <= t <= hi ==> !#[trigger] m.contains_key((key, t)),
    decreases hi,
{
    if exists|ts: u64| is_latest(m, key, lo, hi, ts) {
    } else {
        assert forall|t: u64| lo <= t <= hi implies !#[trigger] m.contains_key((key, t)) by {
            if m.contains_key((key, hi)) {
                assert(is_latest(m, key, lo, hi, hi));
            }
            if t < hi {
                let below = (hi - 1) as u64;
                lemma_latest(m, key, lo, below);
                if m.contains_key((key, t)) {
                    let top = latest(m, key, lo, below)->0;
                    assert(is_latest(m, key, lo, below, top));
                    assert(is_latest(m, key, lo, hi, top));
                }
            }
        }
    }
}

/// At most one timestamp is the latest of a range.
pub proof fn lemma_latest_is(m: Versions, key: Seq<u8>, lo: u64, hi: u64, ts: u64)
    requires
        is_latest(m, key, lo, hi, ts),
    ensures
        latest(m, key, lo, hi) == Some(ts),
{
    let other = choose|t: u64| is_latest(m, key, lo, hi, t);
    assert(is_latest(m, key, lo, hi, other));
}

/// [`earliest_pointer`] names a timestamp exactly if some version of `key` points to `target`.
pub proof fn lemma_earliest_pointer(m: Versions, key: Seq<u8>, target: u64)
    ensures
        earliest_pointer(m, key, target) matches Some(ts) ==> is_earliest_pointer(
            m,
            key,
            target,
            ts,
        ),
        earliest_pointer(m, key, target) is None <==> forall|t: u64|
            !#[trigger] points_to(m, key, t, target),
{
    if exists|ts: u64| is_earliest_pointer(m, key, target, ts) {
    } else {
        assert forall|t: u64| !#[trigger] points_to(m, key, t, target) by {
            lemma_no_earliest_pointer_below(m, key, target, t);
        }
    }
}

proof fn lemma_no_earliest_pointer_below(m: Versions, key: Seq<u8>, target: u64, bound: u64)
    requires
        !exists|ts: u64| is_earliest_pointer(m, key, target, ts),
    ensures
        forall|t: u64| t <= bound ==> !#[trigger] points_to(m, key, t, target),
    decreases bound,
{
    if bound > 0 {
        lemma_no_earliest_pointer_below(m, key, target, (bound - 1) as u64);
    }
    if points_to(m, key, bound, target) {
        assert(is_earliest_pointer(m, key, target, bound));
    }
}

/// At most one timestamp is the earliest pointer.
pub proof fn lemma_earliest_pointer_is(m: Versions, key: Seq<u8>, target: u64, ts: u64)
    requires
        is_earliest_pointer(m, key, target, ts),
    ensures
        earliest_pointer(m, key, target) == Some(ts),
{
    let other = choose|t: u64| is_earliest_pointer(m, key, target, t);
    assert(is_earliest_pointer(m, key, target, other));
}

/// Row keys sort by user key, then by timestamp.
pub open spec fn key_lt(a: KeyView, b: KeyView) -> bool {
    bytes_lt(a.0, b.0) || (a.0 == b.0 && a.1 < b.1)
}

proof fn lemma_key_lt_transitive(a: KeyView, b: KeyView, c: KeyView)
    requires
        key_lt(a, b),
        key_lt(b, c),
    ensures
        key_lt(a, c),
{
    if bytes_lt(a.0, b.0) && bytes_lt(b.0, c.0) {
        lemma_bytes_lt_transitive(a.0, b.0, c.0);
    }
}

proof fn lemma_key_lt_irreflexive(a: KeyView)
    ensures
        !key_lt(a, a),
{
    lemma_bytes_lt_irreflexive(a.0);
}

proof fn lemma_key_lt_total(a: KeyView, b: KeyView)
    ensures
        key_lt(a, b) || a == b || key_lt(b, a),
{
    lemma_bytes_lt_total(a.0, b.0);
}

/// The row key of entry `i`.
spec fn key_at(entries: Seq<(Key, Value)>, i: int) -> KeyView {
    entries[i].0@
}

spec fn sorted(entries: Seq<(Key, Value)>) -> bool {
    forall|i: int, j: int|
        #![trigger key_at(entries, i), key_at(entries, j)]
        0 <= i < j < entries.len() ==> key_lt(key_at(entries, i), key_at(entries, j))
}

spec fn holds_at(entries: Seq<(Key, Value)>, k: KeyView, i: int) -> bool {
    0 <= i < entries.len() && key_at(entries, i) == k
}

spec fn contents(entries: Seq<(Key, Value)>) -> Versions {
    Map::new(
        |k: KeyView| exists|i: int| holds_at(entries, k, i),
        |k: KeyView| entries[choose|i: int| holds_at(entries, k, i)].1@,
    )
}

/// In a sorted column every entry is found under its row key.
proof fn lemma_contents_at(entries: Seq<(Key, Value)>, i: int)
    requires
        sorted(entries),
        0 <= i < entries.len(),
    ensures
        contents(entries).contains_key(key_at(entries, i)),
        contents(entries)[key_at(entries, i)] == entries[i].1@,
{
    let k = key_at(entries, i);
    assert(holds_at(entries, k, i));
    let j = choose|j: int| holds_at(entries, k, j);
    assert(holds_at(entries, k, j));
    lemma_key_lt_irreflexive(k);
    assert(i == j);
}

/// A row key is absent where its place is taken by another one.
proof fn lemma_absent(entries: Seq<(Key, Value)>, k: KeyView, at: int)
    requires
        sorted(entries),
        0 <= at <= entries.len(),
        forall|j: int| 0 <= j < at ==> key_lt(#[trigger] key_at(entries, j), k),
        forall|j: int| at <= j < entries.len() ==> !key_lt(#[trigger] key_at(entries, j), k),
        at < entries.len() ==> key_at(entries, at) != k,
    ensures
        !contents(entries).contains_key(k),
{
    if contents(entries).contains_key(k) {
        let i = choose|i: int| holds_at(entries, k, i);
        assert(holds_at(entries, k, i));
        lemma_key_lt_irreflexive(k);
        assert(at < i);
        assert(key_lt(key_at(entries, at), key_at(entries, i)));
    }
}

proof fn lemma_replace(entries: Seq<(Key, Value)>, at: int, entry: (Key, Value))
    requires
        sorted(entries),
        0 <= at < entries.len(),
        entry.0@ == key_at(entries, at),
    ensures
        sorted(entries.update(at, entry)),
        contents(entries.update(at, entry)) == contents(entries).insert(entry.0@, entry.1@),
{
    let after = entries.update(at, entry);
    assert forall|j: int| 0 <= j < entries.len() implies key_at(after, j) == #[trigger] key_at(
        entries,
        j,
    ) by {}
    assert forall|i: int, j: int|
        #![trigger key_at(after, i), key_at(after, j)]
        0 <= i < j < after.len() implies key_lt(key_at(after, i), key_at(after, j)) by {
        assert(key_lt(key_at(entries, i), key_at(entries, j)));
    }
    let goal = contents(entries).insert(entry.0@, entry.1@);
    assert forall|k: KeyView| #[trigger] contents(after).contains_key(k) == goal.contains_key(k) && (
    goal.contains_key(k) ==> contents(after)[k] == goal[k]) by {
        if contents(after).contains_key(k) {
            let i = choose|i: int| holds_at(after, k, i);
            assert(holds_at(after, k, i));
            assert(holds_at(entries, k, i)) by {
                assert(key_at(after, i) == key_at(entries, i));
            }
            lemma_contents_at(after, i);
            lemma_contents_at(entries, i);
            lemma_key_lt_irreflexive(k);
            if k == entry.0@ && i != at {
                assert(key_at(entries, at) == key_at(entries, i));
            }
        }
        if goal.contains_key(k) {
            if k == entry.0@ {
                assert(key_at(after, at) == key_at(entries, at));
                assert(holds_at(after, k, at));
            } else {
                let i = choose|i: int| holds_at(entries, k, i);
                assert(holds_at(entries, k, i));
                assert(key_at(after, i) == key_at(entries, i));
                assert(holds_at(after, k, i));
            }
        }
    }
    assert(contents(after) =~= goal);
}

proof fn lemma_insert(entries: Seq<(Key, Value)>, at: int, entry: (Key, Value))
    requires
        sorted(entries),
        0 <= at <= entries.len(),
        forall|j: int| 0 <= j < at ==> key_lt(#[trigger] key_at(entries, j), entry.0@),
        forall|j: int|
            at <= j < entries.len() ==> !key_lt(#[trigger] key_at(entries, j), entry.0@),
        at < entries.len() ==> key_at(entries, at) != entry.0@,
    ensures
        sorted(entries.insert(at, entry)),
        contents(entries.insert(at, entry)) == contents(entries).insert(entry.0@, entry.1@),
{
    let after = entries.insert(at, entry);
    let k0 = entry.0@;
    assert(key_at(after, at) == k0);
    assert forall|j: int| 0 <= j < at implies key_at(after, j) == #[trigger] key_at(entries, j) by {}
    assert forall|j: int| at <= j < entries.len() implies key_at(after, j + 1) == #[trigger] key_at(
        entries,
        j,
    ) by {}
    assert forall|j: int| at <= j < entries.len() implies key_lt(k0, #[trigger] key_at(entries, j)) by {
        lemma_key_lt_total(k0, key_at(entries, j));
        if key_at(entries, j) == k0 && at < j {
            assert(key_lt(key_at(entries, at), key_at(entries, j)));
        }
    }
    assert forall|i: int, j: int|
        #![trigger key_at(after, i), key_at(after, j)]
        0 <= i < j < after.len() implies key_lt(key_at(after, i), key_at(after, j)) by {
        let oi = if i < at { i } else { i - 1 };
        let oj = if j < at { j } else { j - 1 };
        if i != at {
            assert(key_at(after, i) == key_at(entries, oi));
        }
        if j != at {
            assert(key_at(after, j) == key_at(entries, oj));
        }
        if i != at && j != at {
            assert(key_lt(key_at(entries, oi), key_at(entries, oj)));
        }
    }
    lemma_absent(entries, k0, at);
    let goal = contents(entries).insert(k0, entry.1@);
    assert forall|k: KeyView| #[trigger] contents(after).contains_key(k) == goal.contains_key(k) && (
    goal.contains_key(k) ==> contents(after)[k] == goal[k]) by {
        if contents(after).contains_key(k) {
            let i = choose|i: int| holds_at(after, k, i);
            assert(holds_at(after, k, i));
            lemma_contents_at(after, i);
            if i != at {
                let oi = if i < at { i } else { i - 1 };
                assert(key_at(after, i) == key_at(entries, oi));
                lemma_contents_at(entries, oi);
                assert(contents(entries).contains_key(k));
            }
        }
        if goal.contains_key(k) {
            if k == k0 {
                assert(holds_at(after, k, at));
            } else {
                let i = choose|i: int| holds_at(entries, k, i);
                assert(holds_at(entries, k, i));
                let ni = if i < at { i } else { i + 1 };
                assert(key_at(after, ni) == key_at(entries, i));
                assert(holds_at(after, k, ni));
            }
        }
    }
    assert(contents(after) =~= goal);
}

proof fn lemma_remove(entries: Seq<(Key, Value)>, at: int)
    requires
        sorted(entries),
        0 <= at < entries.len(),
    ensures
        sorted(entries.remove(at)),
        contents(entries.remove(at)) == contents(entries).remove(key_at(entries, at)),
{
    let after = entries.remove(at);
    let k0 = key_at(entries, at);
    assert forall|j: int| 0 <= j < at implies key_at(entries, j) == #[trigger] key_at(after, j) by {}
    assert forall|j: int| at <= j < after.len() implies key_at(entries, j + 1) == #[trigger] key_at(
        after,
        j,
    ) by {}
    assert forall|i: int, j: int|
        #![trigger key_at(after, i), key_at(after, j)]
        0 <= i < j < after.len() implies key_lt(key_at(after, i), key_at(after, j)) by {
        let oi = if i < at { i } else { i + 1 };
        let oj = if j < at { j } else { j + 1 };
        assert(key_lt(key_at(entries, oi), key_at(entries, oj)));
    }
    let goal = contents(entries).remove(k0);
    assert forall|k: KeyView| #[trigger] contents(after).contains_key(k) == goal.contains_key(k) && (
    goal.contains_key(k) ==> contents(after)[k] == goal[k]) by {
        if contents(after).contains_key(k) {
            let i = choose|i: int| holds_at(after, k, i);
            assert(holds_at(after, k, i));
            lemma_contents_at(after, i);
            let oi = if i < at { i } else { i + 1 };
            assert(key_at(after, i) == key_at(entries, oi));
            lemma_contents_at(entries, oi);
            lemma_key_lt_irreflexive(k0);
            if k == k0 {
                assert(key_at(entries, oi) == key_at(entries, at));
            }
        }
        if goal.contains_key(k) {
            let i = choose|i: int| holds_at(entries, k, i);
            assert(holds_at(entries, k, i));
            assert(i != at);
            let ni = if i < at { i } else { i - 1 };
            assert(key_at(after, ni) == key_at(entries, i));
            assert(holds_at(after, k, ni));
        }
    }
    assert(contents(after) =~= goal);
}

/// The index of the first entry that does not sort before (`key`, `ts`).
fn position(entries: &Vec<(Key, Value)>, key: &Vec<u8>, ts: u64) -> (at: usize)
    requires
        sorted(entries@),
    ensures
        at <= entries@.len(),
        forall|j: int|
            0 <= j < at ==> key_lt(#[trigger] key_at(entries@, j), (key@, ts)),
        forall|j: int|
            at <= j < entries@.len() ==> !key_lt(#[trigger] key_at(entries@, j), (key@, ts)),
{
    let mut lo: usize = 0;
    let mut hi: usize = entries.len();
    let ghost target = (key@, ts);
    while lo < hi
        invariant
            sorted(entries@),
            target == (key@, ts),
            lo <= hi <= entries@.len(),
            forall|j: int| 0 <= j < lo ==> key_lt(#[trigger] key_at(entries@, j), target),
            forall|j: int|
                hi <= j < entries@.len() ==> !key_lt(#[trigger] key_at(entries@, j), target),
        decreases hi - lo,
    {
        let mid: usize = lo + (hi - lo) / 2;
        let entry = &entries[mid];
        let before = match relate_bytes(&entry.0.0, key) {
            Relation::Before => true,
            Relation::Same => entry.0.1 < ts,
            Relation::After => false,
        };
        proof {
            lemma_bytes_lt_irreflexive(key@);
            assert(before == key_lt(key_at(entries@, mid as int), target));
            assert forall|j: int| before && 0 <= j <= mid implies key_lt(
                #[trigger] key_at(entries@, j),
                target,
            ) by {
                if j < mid {
                    lemma_key_lt_transitive(
                        key_at(entries@, j),
                        key_at(entries@, mid as int),
                        target,
                    );
                }
            }
            assert forall|j: int| !before && mid <= j < entries@.len() implies !key_lt(
                #[trigger] key_at(entries@, j),
                target,
            ) by {
                if mid < j && key_lt(key_at(entries@, j), target) {
                    lemma_key_lt_transitive(
                        key_at(entries@, mid as int),
                        key_at(entries@, j),
                        target,
                    );
                }
            }
        }
        if before {
            lo = mid + 1;
        } else {
            hi = mid;
        }
    }
    lo
}

/// Cells sorted by user key and timestamp, each row key at most once.
pub struct VersionMap {
    entries: Vec<(Key, Value)>,
}

impl View for VersionMap {
    type V = Versions;

    closed spec fn view(&self) -> Versions {
        contents(self.entries@)
    }
}

impl VersionMap {
    #[verifier::type_invariant]
    spec fn in_order(self) -> bool {
        sorted(self.entries@)
    }

    /// A column without cells.
    pub fn new() -> (m: VersionMap)
        ensures
            m@ == Map::<KeyView, ValueView>::empty(),
    {
        let m = VersionMap { entries: Vec::new() };
        assert(m@ =~= Map::<KeyView, ValueView>::empty());
        m
    }

    /// Sets the cell of `key` at `ts`, replacing what was there.
    pub fn insert(&mut self, key: Vec<u8>, ts: u64, value: Value)
        ensures
            final(self)@ == old(self)@.insert((key@, ts), value@),
    {
        proof {
            use_type_invariant(&*self);
        }
        let mut entries: Vec<(Key, Value)> = Vec::new();
        std::mem::swap(&mut entries, &mut self.entries);
        let ghost before = entries@;
        let at: usize = position(&entries, &key, ts);
        if at < entries.len() && entries[at].0.1 == ts && same_bytes(&entries[at].0.0, &key) {
            entries[at] = ((key, ts), value);
            proof {
                lemma_replace(before, at as int, entries@[at as int]);
            }
        } else {
            entries.insert(at, ((key, ts), value));
            proof {
                lemma_insert(before, at as int, entries@[at as int]);
            }
        }
        self.entries = entries;
    }

    /// Drops the cell of `key` at `ts`, if there is one.
    pub fn remove(&mut self, key: &Vec<u8>, ts: u64)
        ensures
            final(self)@ == old(self)@.remove((key@, ts)),
    {
        proof {
            use_type_invariant(&*self);
        }
        let mut entries: Vec<(Key, Value)> = Vec::new();
        std::mem::swap(&mut entries, &mut self.entries);
        let ghost before = entries@;
        let at: usize = position(&entries, key, ts);
        if at < entries.len() && entries[at].0.1 == ts && same_bytes(&entries[at].0.0, key) {
            entries.remove(at);
            proof {
                lemma_remove(before, at as int);
            }
        } else {
            proof {
                lemma_absent(before, (key@, ts), at as int);
                assert(contents(before).remove((key@, ts)) =~= contents(before));
            }
        }
        self.entries = entries;
    }

    /// The version of `key` with the greatest timestamp from `lo` to `hi`.
    pub fn latest_between(&self, key: &Vec<u8>, lo: u64, hi: u64) -> (found: Option<(&Key, &Value)>)
        requires
            lo <= hi,
        ensures
            match found {
                Some((k, v)) => {
                    &&& k@.0 == key@
                    &&& latest(self@, key@, lo, hi) == Some(k@.1)
                    &&& is_latest(self@, key@, lo, hi, k@.1)
                    &&& self@[(key@, k@.1)] == v@
                },
                None => {
                    &&& latest(self@, key@, lo, hi) is None
                    &&& forall|t: u64| lo <= t <= hi ==> !#[trigger] self@.contains_key((key@, t))
                },
            },
    {
        proof {
            use_type_invariant(self);
        }
        let at: usize = position(&self.entries, key, hi);
        let ghost es = self.entries@;
        if at < self.entries.len() && self.entries[at].0.1 == hi && same_bytes(
            &self.entries[at].0.0,
            key,
        ) {
            let entry = &self.entries[at];
            proof {
                lemma_contents_at(es, at as int);
                assert(key_at(es, at as int) == (key@, hi));
                lemma_latest_is(self@, key@, lo, hi, hi);
            }
            return Some((&entry.0, &entry.1));
        }
        if at > 0 {
            let entry = &self.entries[at - 1];
            if entry.0.1 >= lo && same_bytes(&entry.0.0, key) {
                let ghost ts = entry.0.1;
                proof {
                    lemma_contents_at(es, at - 1);
                    assert(key_at(es, at - 1) == (key@, ts));
                    lemma_bytes_lt_irreflexive(key@);
                    assert forall|t: u64|
                        lo <= t <= hi && #[trigger] self@.contains_key((key@, t)) implies t <= ts by {
                        let i = choose|i: int| holds_at(es, (key@, t), i);
                        assert(holds_at(es, (key@, t), i));
                        if t == hi {
                            lemma_absent(es, (key@, hi), at as int);
                        }
                        assert(key_lt((key@, t), (key@, hi)));
                        assert(i < at);
                        if i < at - 1 {
                            assert(key_lt(key_at(es, i), key_at(es, at - 1)));
                        }
                    }
                    lemma_latest_is(self@, key@, lo, hi, ts);
                }
                return Some((&entry.0, &entry.1));
            }
        }
        proof {
            lemma_bytes_lt_irreflexive(key@);
            assert forall|t: u64| lo <= t <= hi implies !#[trigger] self@.contains_key((key@, t)) by {
                if self@.contains_key((key@, t)) {
                    let i = choose|i: int| holds_at(es, (key@, t), i);
                    assert(holds_at(es, (key@, t), i));
                    if t == hi {
                        lemma_absent(es, (key@, hi), at as int);
                    }
                    assert(key_lt((key@, t), (key@, hi)));
                    assert(i < at);
                    let last = key_at(es, at - 1);
                    assert(key_lt(last, (key@, hi)));
                    if i < at - 1 {
                        assert(key_lt((key@, t), last));
                        if bytes_lt(key@, last.0) && bytes_lt(last.0, key@) {
                            lemma_bytes_lt_transitive(key@, last.0, key@);
                        }
                    }
                    assert(last.0 == key@ && last.1 >= t);
                }
            }
            lemma_latest(self@, key@, lo, hi);
        }
        None
    }

    /// The least timestamp at which the column maps `key` to the pointer `target`.
    pub fn first_pointer(&self, key: &[u8], target: u64) -> (found: Option<u64>)
        ensures
            found == earliest_pointer(self@, key@, target),
    {
        proof {
            use_type_invariant(self);
        }
        let user_key: Vec<u8> = vstd::slice::slice_to_vec(key);
        let mut i: usize = position(&self.entries, &user_key, 0);
        let ghost es = self.entries@;
        proof {
            assert forall|j: int| 0 <= j < i implies #[trigger] key_at(es, j).0 != key@ by {
                lemma_bytes_lt_irreflexive(key@);
            }
        }
        while i < self.entries.len() && same_bytes(&self.entries[i].0.0, &user_key)
            invariant
                user_key@ == key@,
                es == self.entries@,
                sorted(es),
                self@ == contents(es),
                i <= es.len(),
                forall|j: int|
                    0 <= j < i ==> #[trigger] key_at(es, j).0 != key@ || es[j].1@
                        != ValueView::Timestamp(target),
                forall|j: int|
                    i <= j < es.len() ==> !key_lt(#[trigger] key_at(es, j), (key@, 0u64)),
            decreases es.len() - i,
        {
            let entry = &self.entries[i];
            if let Value::Timestamp(ts) = entry.1 {
                if ts == target {
                    let found: u64 = entry.0.1;
                    proof {
                        lemma_contents_at(es, i as int);
                        assert(key_at(es, i as int) == (key@, found));
                        assert forall|t: u64| #[trigger] points_to(self@, key@, t, target) implies found
                            <= t by {
                            let j = choose|j: int| holds_at(es, (key@, t), j);
                            assert(holds_at(es, (key@, t), j));
                            lemma_contents_at(es, j);
                            lemma_bytes_lt_irreflexive(key@);
                            if i < j {
                                assert(key_lt(key_at(es, i as int), key_at(es, j)));
                            }
                        }
                        lemma_earliest_pointer_is(self@, key@, target, found);
                    }
                    return Some(found);
                }
            }
            i = i + 1;
        }
        proof {
            assert forall|t: u64| !#[trigger] points_to(self@, key@, t, target) by {
                if points_to(self@, key@, t, target) {
                    let j = choose|j: int| holds_at(es, (key@, t), j);
                    assert(holds_at(es, (key@, t), j));
                    lemma_contents_at(es, j);
                    assert(i <= j);
                    // The entry at `i` has another key and sorts neither before `key` nor,
                    // coming before `j`, after it.
                    let other = key_at(es, i as int);
                    assert(other.0 != key@);
                    lemma_bytes_lt_total(other.0, key@);
                    if i < j {
                        assert(key_lt(other, key_at(es, j)));
                        lemma_bytes_lt_irreflexive(key@);
                        if bytes_lt(key@, other.0) {
                            lemma_bytes_lt_transitive(key@, other.0, key@);
                        }
                    }
                }
            }
            lemma_earliest_pointer(self@, key@, target);
        }
        None
    }
}

impl Clone for VersionMap {
    fn clone(&self) -> (copy: VersionMap)
        ensures
            copy@ == self@,
    {
        proof {
            use_type_invariant(self);
        }
        let mut entries: Vec<(Key, Value)> = Vec::new();
        let mut i: usize = 0;
        let ghost es = self.entries@;
        while i < self.entries.len()
            invariant
                es == self.entries@,
                i <= es.len(),
                entries@.len() == i,
                forall|j: int| 0 <= j < i ==> key_at(entries@, j) == #[trigger] key_at(es, j),
                forall|j: int| 0 <= j < i ==> #[trigger] entries@[j].1@ == es[j].1@,
            decreases es.len() - i,
        {
            let entry = &self.entries[i];
            entries.push(((copy_bytes(&entry.0.0), entry.0.1), entry.1.clone()));
            i = i + 1;
        }
        proof {
            assert forall|j: int, l: int|
                #![trigger key_at(entries@, j), key_at(entries@, l)]
                0 <= j < l < entries@.len() implies key_lt(
                key_at(entries@, j),
                key_at(entries@, l),
            ) by {
                assert(key_lt(key_at(es, j), key_at(es, l)));
            }
            assert forall|k: KeyView| #[trigger] contents(entries@).contains_key(k) == contents(
                es,
            ).contains_key(k) && (contents(es).contains_key(k) ==> contents(entries@)[k] == contents(
                es,
            )[k]) by {
                if contents(es).contains_key(k) {
                    let j = choose|j: int| holds_at(es, k, j);
                    assert(holds_at(es, k, j));
                    assert(key_at(entries@, j) == key_at(es, j));
                    lemma_contents_at(es, j);
                    lemma_contents_at(entries@, j);
                }
                if contents(entries@).contains_key(k) {
                    let j = choose|j: int| holds_at(entries@, k, j);
                    assert(holds_at(entries@, k, j));
                    assert(key_at(entries@, j) == key_at(es, j));
                    assert(holds_at(es, k, j));
                }
            }
            assert(contents(entries@) =~= contents(es));
        }
        VersionMap { entries }
    }
}

impl Default for VersionMap {
    fn default() -> (m: VersionMap)
        ensures
            m@ == Map::<KeyView, ValueView>::empty(),
    {
        VersionMap::new()
    }
}

} // verus!
