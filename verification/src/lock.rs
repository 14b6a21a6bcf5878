//! Lock column encoding: `[kind:u8][primary...]` where kind 0 = prewrite, 1 = pessimistic.

use vstd::prelude::*;

use crate::cell::{Value, ValueView};

verus! {

/// The cell that a lock with this primary and kind is stored as.
pub open spec fn encoded_lock(primary: Seq<u8>, pessimistic: bool) -> ValueView {
    ValueView::Bytes(
        seq![
            if pessimistic {
                1u8
            } else {
                0u8
            },
        ] + primary,
    )
}

/// The primary and the kind that a lock cell stands for; `None` where it holds no lock.
pub open spec fn decoded_lock(value: ValueView) -> Option<(Seq<u8>, bool)> {
    match value {
        ValueView::Bytes(bytes) if bytes.len() > 0 => Some((bytes.drop_first(), bytes[0] == 1)),
        _ => None,
    }
}

/// The mathematical value of a decoded lock.
pub open spec fn lock_view(lock: Option<(Vec<u8>, bool)>) -> Option<(Seq<u8>, bool)> {
    match lock {
        Some((primary, pessimistic)) => Some((primary@, pessimistic)),
        None => None,
    }
}

/// The cell for a lock with this primary and kind.
pub fn encode_lock(primary: &[u8], pessimistic: bool) -> (value: Value)
    ensures
        value@ == encoded_lock(primary@, pessimistic),
        value matches Value::Vector(bytes) && bytes@.len() == primary@.len() + 1 && bytes@.skip(1)
            == primary@ && bytes@[0] == if pessimistic {
            1u8
        } else {
            0u8
        },
        decoded_lock(value@) == Some((primary@, pessimistic)),
{
    let mut bytes: Vec<u8> = Vec::new();
    bytes.push(
        if pessimistic {
            1
        } else {
            0
        },
    );
    bytes.extend_from_slice(primary);
    proof {
        assert(encoded_lock(primary@, pessimistic) == ValueView::Bytes(bytes@)) by {
            assert(bytes@ =~= seq![if pessimistic { 1u8 } else { 0u8 }] + primary@);
        }
        lemma_lock_round_trip(primary@, pessimistic);
    }
    Value::Vector(bytes)
}

/// The primary and the kind of the lock in a cell, where it holds one.
pub fn decode_lock(value: &Value) -> (lock: Option<(Vec<u8>, bool)>)
    ensures
        lock_view(lock) == decoded_lock(value@),
        match lock {
            Some((primary, pessimistic)) => {
                &&& value matches Value::Vector(bytes)
                &&& bytes@.len() == primary@.len() + 1
                &&& bytes@.skip(1) == primary@
                &&& pessimistic <==> bytes@[0] == 1
            },
            None => value matches Value::Vector(bytes) ==> bytes@.len() == 0,
        },
{
    match value {
        Value::Vector(bytes) => {
            if bytes.len() == 0 {
                return None;
            }
            let pessimistic = bytes[0] == 1;
            let primary = vstd::slice::slice_to_vec(
                vstd::slice::slice_subrange(bytes.as_slice(), 1, bytes.len()),
            );
            proof {
                assert(primary@ =~= bytes@.drop_first());
            }
            Some((primary, pessimistic))
        },
        Value::Timestamp(_) => None,
    }
}

/// Decoding an encoded lock gives back its primary and kind.
pub proof fn lemma_lock_round_trip(primary: Seq<u8>, pessimistic: bool)
    ensures
        decoded_lock(encoded_lock(primary, pessimistic)) == Some((primary, pessimistic)),
{
    let first = seq![if pessimistic { 1u8 } else { 0u8 }];
    assert((first + primary).drop_first() =~= primary);
}

} // verus!
