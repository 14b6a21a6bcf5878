//! Timestamp Oracle (TSO): hands out strictly increasing timestamps used as
//! transaction start_ts / commit_ts for MVCC ordering.

use vstd::prelude::*;

use crate::error::Error;
use crate::msg::{TimestampRequest, TimestampResponse};

verus! {

/// The oracle remembers the last timestamp that it issued (0 before the first one).
pub struct TimestampOracle {
    last_ts: u64,
}

impl View for TimestampOracle {
    type V = u64;

    closed spec fn view(&self) -> u64 {
        self.last_ts
    }
}

/// The timestamp issued at clock reading `now` after `last`: the reading itself where it
/// has moved on, and otherwise the next number.
pub open spec fn issued(now: u64, last: int) -> int {
    if now > last {
        now as int
    } else {
        last + 1
    }
}

/// The clock in nanoseconds since the Unix epoch, in the 64 bits that a timestamp has; a
/// clock that stands before the epoch reads 0.
pub open spec fn clock_value(nanos: Option<u128>) -> u64 {
    match nanos {
        Some(n) => (n % 0x1_0000_0000_0000_0000) as u64,
        None => 0,
    }
}

/// Nanoseconds since the Unix epoch by [`std::time::SystemTime::elapsed`] of
/// [`std::time::UNIX_EPOCH`], or `None` where the system clock stands before the epoch.
/// Nothing is claimed of the result: it is whatever the clock says.
#[verifier::external_body]
fn nanos_since_epoch() -> (nanos: Option<u128>) {
    match std::time::UNIX_EPOCH.elapsed() {
        Ok(elapsed) => Some(elapsed.as_nanos()),
        Err(_) => None,
    }
}

impl TimestampOracle {
    /// An oracle that has issued nothing yet.
    pub fn new() -> (oracle: TimestampOracle)
        ensures
            oracle@ == 0,
    {
        TimestampOracle { last_ts: 0 }
    }

    /// The last timestamp issued, or 0.
    pub fn last_issued(&self) -> (last: u64)
        ensures
            last == self@,
    {
        self.last_ts
    }

    /// Issues the timestamp for a clock reading, strictly greater than any issued before.
    pub fn issue(&mut self, nanos: Option<u128>) -> (timestamp: u64)
        requires
            old(self)@ < u64::MAX,
        ensures
            timestamp == issued(clock_value(nanos), old(self)@ as int),
            final(self)@ == timestamp,
            timestamp > old(self)@,
    {
        let now: u64 = match nanos {
            Some(n) => {
                let reading: u128 = n % 0x1_0000_0000_0000_0000;
                reading as u64
            },
            None => 0,
        };
        let timestamp: u64 = if now > self.last_ts {
            now
        } else {
            self.last_ts + 1
        };
        self.last_ts = timestamp;
        timestamp
    }

    /// Returns a timestamp strictly greater than any previously issued value.
    pub fn get_timestamp(&mut self, _request: TimestampRequest) -> (response: Result<
        TimestampResponse,
        Error,
    >)
        requires
            old(self)@ < u64::MAX,
        ensures
            response matches Ok(r) && r.timestamp > old(self)@ && final(self)@ == r.timestamp,
    {
        let nanos = nanos_since_epoch();
        let timestamp: u64 = self.issue(nanos);
        Ok(TimestampResponse { timestamp })
    }
}

impl Default for TimestampOracle {
    fn default() -> (oracle: TimestampOracle)
        ensures
            oracle@ == 0,
    {
        TimestampOracle::new()
    }
}

/// The timestamps that an oracle issues for a series of clock readings, after `last`.
pub open spec fn timestamps(last: int, readings: Seq<Option<u128>>) -> Seq<int>
    decreases readings.len(),
{
    if readings.len() == 0 {
        Seq::empty()
    } else {
        let earlier = timestamps(last, readings.drop_last());
        earlier.push(
            issued(
                clock_value(readings.last()),
                if earlier.len() == 0 {
                    last
                } else {
                    earlier.last()
                },
            ),
        )
    }
}

/// However the clock goes, even backwards, timestamps strictly increase.
pub proof fn lemma_timestamps_increase(last: int, readings: Seq<Option<u128>>)
    ensures
        timestamps(last, readings).len() == readings.len(),
        forall|i: int| 0 <= i < readings.len() ==> #[trigger] timestamps(last, readings)[i] > last,
        forall|i: int, j: int|
            0 <= i < j < readings.len() ==> #[trigger] timestamps(last, readings)[i]
                < #[trigger] timestamps(last, readings)[j],
    decreases readings.len(),
{
    if readings.len() > 0 {
        lemma_timestamps_increase(last, readings.drop_last());
    }
}

/// A timestamp is the clock reading, unless that would not be greater than the last one; then it
/// is the next number. A clock before the epoch reads 0, and one past the range of a timestamp
/// starts over.
pub proof fn lemma_timestamp_follows_clock(last: int, nanos: u128)
    requires
        0 <= last,
    ensures
        nanos <= u64::MAX ==> ({
            let timestamp = issued(clock_value(Some(nanos)), last);
            &&& nanos > last ==> timestamp == nanos
            &&& nanos <= last ==> timestamp == last + 1
        }),
        nanos + 0x1_0000_0000_0000_0000 <= u128::MAX ==> clock_value(
            Some((nanos + 0x1_0000_0000_0000_0000) as u128),
        ) == clock_value(Some(nanos)),
        issued(clock_value(None), last) == last + 1,
{
}

} // verus!
