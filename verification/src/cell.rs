//! Rows and cells of the Bigtable-style store.

use vstd::prelude::*;

use crate::bytes::copy_bytes;

verus! {

/// Bigtable-style row key: (user key, timestamp).
pub type Key = (Vec<u8>, u64);

/// The mathematical value of a [`Key`].
pub type KeyView = (Seq<u8>, u64);

/// Cell value: timestamp pointer (Write), raw bytes (Data), or encoded lock (Lock).
#[derive(Debug, PartialEq)]
pub enum Value {
    Timestamp(u64),
    Vector(Vec<u8>),
}

/// The mathematical value of a [`Value`].
pub enum ValueView {
    Timestamp(u64),
    Bytes(Seq<u8>),
}

impl View for Value {
    type V = ValueView;

    open spec fn view(&self) -> ValueView {
        match self {
            Value::Timestamp(ts) => ValueView::Timestamp(*ts),
            Value::Vector(bytes) => ValueView::Bytes(bytes@),
        }
    }
}

impl Clone for Value {
    fn clone(&self) -> (copy: Value)
        ensures
            copy@ == self@,
    {
        match self {
            Value::Timestamp(ts) => Value::Timestamp(*ts),
            Value::Vector(bytes) => Value::Vector(copy_bytes(bytes)),
        }
    }
}

/// A buffered write: a key and the value that it is to get.
#[derive(Debug)]
pub struct Write(pub Vec<u8>, pub Vec<u8>);

/// The mathematical value of a [`Write`].
pub type WriteView = (Seq<u8>, Seq<u8>);

impl View for Write {
    type V = WriteView;

    open spec fn view(&self) -> WriteView {
        (self.0@, self.1@)
    }
}

impl Clone for Write {
    fn clone(&self) -> (copy: Write)
        ensures
            copy@ == self@,
    {
        Write(copy_bytes(&self.0), copy_bytes(&self.1))
    }
}

/// Percolator columns:
/// - **Data**: value at `start_ts` (written at prewrite; not for pessimistic-only locks)
/// - **Lock**: in-flight txn; value encodes primary key + optimistic/pessimistic kind
/// - **Write**: commit record at `commit_ts`, which points to the Data `start_ts`
#[derive(Clone, Copy, Debug, PartialEq, Eq, Structural)]
pub enum Column {
    Write,
    Data,
    Lock,
}

} // verus!
