//! Buffered writes: looking one up, and reducing them to one write per key.

use vstd::prelude::*;

use crate::bytes::{copy_bytes, same_bytes};
use crate::cell::{Write, WriteView};

verus! {

/// The mathematical value of a list of writes.
pub open spec fn writes_view(writes: Seq<Write>) -> Seq<WriteView> {
    Seq::new(writes.len(), |i: int| writes[i]@)
}

/// The mathematical value of a list of keys.
pub open spec fn keys_view(keys: Seq<Vec<u8>>) -> Seq<Seq<u8>> {
    Seq::new(keys.len(), |i: int| keys[i]@)
}

/// The keys of a list of writes.
pub open spec fn keys_of(writes: Seq<WriteView>) -> Seq<Seq<u8>> {
    Seq::new(writes.len(), |i: int| writes[i].0)
}

/// The value that `key` was written last.
pub open spec fn last_value(writes: Seq<WriteView>, key: Seq<u8>) -> Option<Seq<u8>>
    decreases writes.len(),
{
    if writes.len() == 0 {
        None
    } else if writes.last().0 == key {
        Some(writes.last().1)
    } else {
        last_value(writes.drop_last(), key)
    }
}

/// The keys written, each once, in the order of their first writes.
pub open spec fn distinct_keys(writes: Seq<WriteView>) -> Seq<Seq<u8>>
    decreases writes.len(),
{
    if writes.len() == 0 {
        Seq::empty()
    } else {
        let earlier = distinct_keys(writes.drop_last());
        if earlier.contains(writes.last().0) {
            earlier
        } else {
            earlier.push(writes.last().0)
        }
    }
}

/// One write per key: the keys in the order of their first writes, each with the value that
/// it was written last.
pub open spec fn coalesced(writes: Seq<WriteView>) -> Seq<WriteView> {
    let keys = distinct_keys(writes);
    Seq::new(keys.len(), |i: int| (keys[i], last_value(writes, keys[i])->0))
}

/// No key occurs twice.
pub open spec fn keys_distinct(writes: Seq<WriteView>) -> bool {
    forall|i: int, j: int|
        0 <= i < j < writes.len() ==> (#[trigger] writes[i]).0 != (#[trigger] writes[j]).0
}

/// The distinct keys are those with a last value, each once, beginning with the first written.
pub proof fn lemma_distinct_keys(writes: Seq<WriteView>)
    ensures
        distinct_keys(writes).no_duplicates(),
        forall|k: Seq<u8>| #[trigger]
            distinct_keys(writes).contains(k) <==> last_value(writes, k) is Some,
        writes.len() > 0 ==> distinct_keys(writes).len() > 0 && distinct_keys(writes)[0]
            == writes[0].0,
    decreases writes.len(),
{
    if writes.len() > 0 {
        let rest = writes.drop_last();
        let earlier = distinct_keys(rest);
        let last = writes.last().0;
        lemma_distinct_keys(rest);
        let keys = distinct_keys(writes);
        assert forall|k: Seq<u8>| #[trigger] keys.contains(k) <==> last_value(writes, k) is Some by {
            if !earlier.contains(last) {
                assert(keys == earlier.push(last));
                if k == last {
                    assert(keys[earlier.len() as int] == last);
                } else if earlier.contains(k) {
                    let i = choose|i: int| 0 <= i < earlier.len() && earlier[i] == k;
                    assert(keys[i] == k);
                } else if keys.contains(k) {
                    let i = choose|i: int| 0 <= i < keys.len() && keys[i] == k;
                    assert(i < earlier.len() ==> earlier[i] == k);
                }
            }
            assert(earlier.contains(k) <==> last_value(rest, k) is Some);
        }
        if rest.len() > 0 {
            assert(rest[0] == writes[0]);
        }
    }
}

/// Coalescing leaves one write per key and changes no value: every key keeps the value that
/// it was written last.
pub proof fn lemma_coalesced(writes: Seq<WriteView>)
    ensures
        keys_distinct(coalesced(writes)),
        forall|k: Seq<u8>|
            last_value(coalesced(writes), k) == #[trigger] last_value(writes, k),
        writes.len() > 0 ==> coalesced(writes).len() > 0 && coalesced(writes)[0].0 == writes[0].0,
        keys_of(coalesced(writes)) == distinct_keys(writes),
{
    lemma_distinct_keys(writes);
    let keys = distinct_keys(writes);
    let out = coalesced(writes);
    assert(keys_of(out) =~= keys);
    assert forall|k: Seq<u8>| last_value(out, k) == #[trigger] last_value(writes, k) by {
        if keys.contains(k) {
            let i = choose|i: int| 0 <= i < keys.len() && keys[i] == k;
            lemma_last_value_at(out, i);
        } else {
            assert(last_value(writes, k) is None);
            if last_value(out, k) is Some {
                let i = lemma_last_value_from(out, k);
                assert(keys[i] == k);
            }
        }
    }
}

/// Where keys are distinct, every write is the last one of its key.
pub proof fn lemma_last_value_at(writes: Seq<WriteView>, i: int)
    requires
        keys_distinct(writes),
        0 <= i < writes.len(),
    ensures
        last_value(writes, writes[i].0) == Some(writes[i].1),
    decreases writes.len(),
{
    let rest = writes.drop_last();
    if i < writes.len() - 1 {
        assert(writes[i].0 != writes[writes.len() - 1].0);
        assert(rest[i] == writes[i]);
        assert(keys_distinct(rest));
        lemma_last_value_at(rest, i);
    }
}

/// A last value is that of some write.
proof fn lemma_last_value_from(writes: Seq<WriteView>, key: Seq<u8>) -> (i: int)
    requires
        last_value(writes, key) is Some,
    ensures
        0 <= i < writes.len(),
        writes[i] == (key, last_value(writes, key)->0),
    decreases writes.len(),
{
    if writes.last().0 == key {
        writes.len() - 1
    } else {
        lemma_last_value_from(writes.drop_last(), key)
    }
}

/// A write is read back by its own transaction until the key is written again, and it
/// changes what the transaction reads of no other key.
pub proof fn lemma_read_your_writes(writes: Seq<WriteView>, key: Seq<u8>, value: Seq<u8>)
    ensures
        last_value(writes.push((key, value)), key) == Some(value),
        forall|k: Seq<u8>|
            k != key ==> #[trigger] last_value(writes.push((key, value)), k) == last_value(
                writes,
                k,
            ),
{
    assert(writes.push((key, value)).drop_last() =~= writes);
}

/// The value that `key` was written last.
pub fn find_last(writes: &Vec<Write>, key: &Vec<u8>) -> (found: Option<Vec<u8>>)
    ensures
        match found {
            Some(value) => last_value(writes_view(writes@), key@) == Some(value@),
            None => last_value(writes_view(writes@), key@) is None,
        },
{
    let mut i: usize = writes.len();
    let ghost all = writes_view(writes@);
    proof {
        assert(all.take(i as int) =~= all);
    }
    while i > 0
        invariant
            all == writes_view(writes@),
            i <= writes@.len(),
            last_value(all, key@) == last_value(all.take(i as int), key@),
        decreases i,
    {
        i = i - 1;
        proof {
            assert(all.take(i + 1).drop_last() =~= all.take(i as int));
            assert(all.take(i + 1).last() == writes@[i as int]@);
        }
        if same_bytes(&writes[i].0, key) {
            return Some(copy_bytes(&writes[i].1));
        }
    }
    None
}

/// The index of the write of `key`, if there is one; the first, where there are several.
pub fn find_key(writes: &Vec<Write>, key: &Vec<u8>) -> (found: Option<usize>)
    ensures
        match found {
            Some(i) => {
                &&& i < writes@.len()
                &&& writes@[i as int]@.0 == key@
                &&& forall|j: int| 0 <= j < i ==> (#[trigger] writes@[j])@.0 != key@
            },
            None => forall|j: int| 0 <= j < writes@.len() ==> (#[trigger] writes@[j])@.0 != key@,
        },
{
    let mut i: usize = 0;
    while i < writes.len()
        invariant
            i <= writes@.len(),
            forall|j: int| 0 <= j < i ==> (#[trigger] writes@[j])@.0 != key@,
        decreases writes@.len() - i,
    {
        if same_bytes(&writes[i].0, key) {
            return Some(i);
        }
        i = i + 1;
    }
    None
}

/// Whether `key` is among `keys`.
pub fn contains_key(keys: &Vec<Vec<u8>>, key: &Vec<u8>) -> (found: bool)
    ensures
        found == keys_view(keys@).contains(key@),
{
    let mut i: usize = 0;
    while i < keys.len()
        invariant
            i <= keys@.len(),
            forall|j: int| 0 <= j < i ==> (#[trigger] keys@[j])@ != key@,
        decreases keys@.len() - i,
    {
        if same_bytes(&keys[i], key) {
            assert(keys_view(keys@)[i as int] == key@);
            return true;
        }
        i = i + 1;
    }
    assert(!keys_view(keys@).contains(key@)) by {
        if keys_view(keys@).contains(key@) {
            let j = choose|j: int| 0 <= j < keys@.len() && keys_view(keys@)[j] == key@;
            assert(keys@[j]@ == key@);
        }
    }
    false
}

/// A fresh copy of a list of keys.
pub fn copy_keys(keys: &Vec<Vec<u8>>) -> (copy: Vec<Vec<u8>>)
    ensures
        keys_view(copy@) == keys_view(keys@),
{
    let mut copy: Vec<Vec<u8>> = Vec::new();
    let mut i: usize = 0;
    while i < keys.len()
        invariant
            i <= keys@.len(),
            copy@.len() == i,
            forall|j: int| 0 <= j < i ==> (#[trigger] copy@[j])@ == keys@[j]@,
        decreases keys@.len() - i,
    {
        copy.push(copy_bytes(&keys[i]));
        i = i + 1;
    }
    assert(keys_view(copy@) =~= keys_view(keys@));
    copy
}

/// Reduces buffered writes to one write per key, in the order of the first writes, each with
/// the value written last.
pub fn coalesce(writes: &Vec<Write>) -> (out: Vec<Write>)
    ensures
        writes_view(out@) == coalesced(writes_view(writes@)),
{
    let mut out: Vec<Write> = Vec::new();
    let mut i: usize = 0;
    let ghost all = writes_view(writes@);
    proof {
        assert(writes_view(out@) =~= coalesced(all.take(0)));
    }
    while i < writes.len()
        invariant
            all == writes_view(writes@),
            i <= writes@.len(),
            writes_view(out@) == coalesced(all.take(i as int)),
        decreases writes@.len() - i,
    {
        let ghost seen = all.take(i as int);
        let ghost more = all.take(i + 1);
        let write = &writes[i];
        let ghost before = out@;
        let at = find_key(&out, &write.0);
        proof {
            assert(more.drop_last() =~= seen);
            assert(more.last() == write@);
            lemma_distinct_keys(seen);
            lemma_distinct_keys(more);
            lemma_read_your_writes(seen, write@.0, write@.1);
            assert(more =~= seen.push(write@));
            assert(writes_view(before).len() == distinct_keys(seen).len());
            assert forall|j: int| 0 <= j < before.len() implies (#[trigger] before[j])@.0
                == distinct_keys(seen)[j] && before[j]@.1 == last_value(
                seen,
                distinct_keys(seen)[j],
            )->0 by {
                assert(writes_view(before)[j] == before[j]@);
            }
        }
        match at {
            Some(j) => {
                out[j] = write.clone();
                proof {
                    assert(distinct_keys(seen)[j as int] == write@.0);
                    assert(distinct_keys(more) == distinct_keys(seen));
                    assert forall|l: int| 0 <= l < out@.len() implies #[trigger] writes_view(out@)[l]
                        == coalesced(more)[l] by {
                        if l != j {
                            assert(before[l]@.0 == distinct_keys(seen)[l]);
                            assert(distinct_keys(seen)[l] != distinct_keys(seen)[j as int]);
                        }
                    }
                    assert(writes_view(out@) =~= coalesced(more));
                }
            },
            None => {
                out.push(write.clone());
                proof {
                    assert(!distinct_keys(seen).contains(write@.0)) by {
                        if distinct_keys(seen).contains(write@.0) {
                            let j = choose|j: int|
                                0 <= j < distinct_keys(seen).len() && distinct_keys(seen)[j]
                                    == write@.0;
                            assert(before[j]@.0 == write@.0);
                        }
                    }
                    assert(distinct_keys(more) == distinct_keys(seen).push(write@.0));
                    assert forall|l: int| 0 <= l < out@.len() implies #[trigger] writes_view(out@)[l]
                        == coalesced(more)[l] by {
                        if l < before.len() {
                            assert(before[l]@.0 == distinct_keys(seen)[l]);
                            assert(distinct_keys(more)[l] == distinct_keys(seen)[l]);
                            assert(distinct_keys(seen).contains(distinct_keys(seen)[l]));
                        }
                    }
                    assert(writes_view(out@) =~= coalesced(more));
                }
            },
        }
        i = i + 1;
    }
    proof {
        assert(all.take(i as int) =~= all);
    }
    out
}

/// Write number `i` is the last one of `key`.
pub open spec fn last_write_at(writes: Seq<WriteView>, key: Seq<u8>, i: int) -> bool {
    &&& 0 <= i < writes.len()
    &&& writes[i].0 == key
    &&& forall|j: int| i < j < writes.len() ==> (#[trigger] writes[j]).0 != key
}

/// Write number `i` is the first one of `key`.
pub open spec fn first_write_at(writes: Seq<WriteView>, key: Seq<u8>, i: int) -> bool {
    &&& 0 <= i < writes.len()
    &&& writes[i].0 == key
    &&& forall|j: int| 0 <= j < i ==> (#[trigger] writes[j]).0 != key
}

/// The value that a key was written last is that of its last write, if it has been written.
pub proof fn lemma_last_value(writes: Seq<WriteView>, key: Seq<u8>)
    ensures
        match last_value(writes, key) {
            Some(value) => exists|i: int| #[trigger]
                last_write_at(writes, key, i) && writes[i].1 == value,
            None => forall|i: int| 0 <= i < writes.len() ==> (#[trigger] writes[i]).0 != key,
        },
    decreases writes.len(),
{
    if writes.len() > 0 {
        let rest = writes.drop_last();
        lemma_last_value(rest, key);
        if writes.last().0 == key {
            assert(last_write_at(writes, key, writes.len() - 1));
        } else if last_value(rest, key) is Some {
            let i = choose|i: int| #[trigger]
                last_write_at(rest, key, i) && rest[i].1 == last_value(rest, key)->0;
            assert forall|j: int| i < j < writes.len() implies (#[trigger] writes[j]).0 != key by {
                if j < rest.len() {
                    assert(rest[j].0 != key);
                }
            }
            assert(last_write_at(writes, key, i));
        } else {
            assert forall|i: int| 0 <= i < writes.len() implies (#[trigger] writes[i]).0 != key by {
                if i < rest.len() {
                    assert(rest[i].0 != key);
                }
            }
        }
    }
}

/// Coalescing keeps the keys in the order of their first writes.
pub proof fn lemma_coalesced_in_order(writes: Seq<WriteView>, i: int, j: int)
    requires
        0 <= i < j < coalesced(writes).len(),
    ensures
        exists|a: int, b: int|
            a < b && #[trigger] first_write_at(writes, coalesced(writes)[i].0, a)
                && #[trigger] first_write_at(writes, coalesced(writes)[j].0, b),
    decreases writes.len(),
{
    let rest = writes.drop_last();
    let earlier = distinct_keys(rest);
    lemma_distinct_keys(rest);
    if j < earlier.len() {
        lemma_coalesced_in_order(rest, i, j);
        let (a, b) = choose|a: int, b: int|
            a < b && #[trigger] first_write_at(rest, coalesced(rest)[i].0, a)
                && #[trigger] first_write_at(rest, coalesced(rest)[j].0, b);
        lemma_first_write_stays(writes, earlier[i], a);
        lemma_first_write_stays(writes, earlier[j], b);
        assert(first_write_at(writes, coalesced(writes)[i].0, a));
        assert(first_write_at(writes, coalesced(writes)[j].0, b));
    } else {
        let a = lemma_first_write(rest, earlier[i]);
        let b = writes.len() - 1;
        lemma_last_value(rest, writes.last().0);
        lemma_first_write_stays(writes, earlier[i], a);
        assert(first_write_at(writes, coalesced(writes)[i].0, a));
        assert(last_value(rest, writes.last().0) is None);
        assert forall|m: int| 0 <= m < b implies (#[trigger] writes[m]).0 != writes.last().0 by {
            assert(rest[m].0 != writes.last().0);
        }
        assert(first_write_at(writes, coalesced(writes)[j].0, b));
    }
}

/// Another write does not change which write of a key is the first.
proof fn lemma_first_write_stays(writes: Seq<WriteView>, key: Seq<u8>, i: int)
    requires
        writes.len() > 0,
        first_write_at(writes.drop_last(), key, i),
    ensures
        first_write_at(writes, key, i),
{
    let rest = writes.drop_last();
    assert forall|j: int| 0 <= j < i implies (#[trigger] writes[j]).0 != key by {
        assert(rest[j].0 != key);
    }
}

proof fn lemma_first_write(writes: Seq<WriteView>, key: Seq<u8>) -> (i: int)
    requires
        distinct_keys(writes).contains(key),
    ensures
        first_write_at(writes, key, i),
    decreases writes.len(),
{
    let rest = writes.drop_last();
    let earlier = distinct_keys(rest);
    if earlier.contains(key) {
        let i = lemma_first_write(rest, key);
        lemma_first_write_stays(writes, key, i);
        i
    } else {
        let keys = distinct_keys(writes);
        let m = choose|m: int| 0 <= m < keys.len() && keys[m] == key;
        if m < earlier.len() {
            assert(earlier[m] == key);
        }
        lemma_distinct_keys(rest);
        lemma_last_value(rest, key);
        assert forall|j: int| 0 <= j < writes.len() - 1 implies (#[trigger] writes[j]).0 != key by {
            assert(rest[j].0 != key);
        }
        writes.len() - 1
    }
}

} // verus!
