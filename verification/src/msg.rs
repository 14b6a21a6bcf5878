//! The messages of the timestamp and transaction services.

use vstd::prelude::*;

verus! {

#[derive(Clone, Debug, PartialEq, Eq)]
pub struct TimestampRequest {}

#[derive(Clone, Debug, PartialEq, Eq)]
pub struct TimestampResponse {
    pub timestamp: u64,
}

#[derive(Clone, Debug, PartialEq, Eq)]
pub struct GetRequest {
    pub key: Vec<u8>,
    pub start_ts: u64,
}

#[derive(Clone, Debug, PartialEq, Eq)]
pub struct GetResponse {
    pub value: Vec<u8>,
}

/// An empty `primary` names `key` itself.
#[derive(Clone, Debug, PartialEq, Eq)]
pub struct PessimisticLockRequest {
    pub key: Vec<u8>,
    pub start_ts: u64,
    pub for_update_ts: u64,
    pub primary: Vec<u8>,
}

#[derive(Clone, Debug, PartialEq, Eq)]
pub struct PessimisticLockResponse {}

/// An empty `primary` names `key` itself.
#[derive(Clone, Debug, PartialEq, Eq)]
pub struct PrewriteRequest {
    pub key: Vec<u8>,
    pub value: Vec<u8>,
    pub start_ts: u64,
    pub primary: Vec<u8>,
}

#[derive(Clone, Debug, PartialEq, Eq)]
pub struct PrewriteResponse {}

#[derive(Clone, Debug, PartialEq, Eq)]
pub struct CommitRequest {
    pub key: Vec<u8>,
    pub value: Vec<u8>,
    pub start_ts: u64,
    pub commit_ts: u64,
}

#[derive(Clone, Debug, PartialEq, Eq)]
pub struct CommitResponse {
    pub ok: bool,
}

#[derive(Clone, Debug, PartialEq, Eq)]
pub struct RollbackRequest {
    pub key: Vec<u8>,
    pub start_ts: u64,
}

#[derive(Clone, Debug, PartialEq, Eq)]
pub struct RollbackResponse {}

} // verus!
