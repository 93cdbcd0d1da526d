//! Time-ordered unique ids in the KSUID layout: a 32-bit count of seconds
//! since the KSUID epoch, followed by 128 random bits.

use vstd::prelude::*;

verus! {

/// Seconds between the unix epoch and the KSUID epoch.
pub open spec fn ksuid_epoch() -> int {
    1_400_000_000
}

/// A K-sortable unique id: seconds since the KSUID epoch plus a random
/// 128-bit payload.
#[derive(Clone, Copy, Debug, Hash, PartialEq, Eq, PartialOrd, Ord, Structural)]
pub struct Ksuid {
    /// Seconds since the KSUID epoch at creation time.
    pub timestamp: u32,
    /// 128 random bits.
    pub payload: u128,
}

/// Relies on `rand::random` with the standard distribution over `u128`:
/// some 128-bit value comes back; nothing is promised of it.
#[verifier::external_body]
fn random_payload() -> u128 {
    rand::random()
}

/// Relies on `chrono::Utc::now`, converted to plain seconds by
/// `chrono::DateTime::timestamp`: the unix seconds of the current instant;
/// which instant it is depends on the clock, so nothing is promised of the
/// value.
#[verifier::external_body]
fn unix_now() -> i64 {
    chrono::Utc::now().timestamp()
}

impl Ksuid {
    /// A fresh id: the clock decides the timestamp (clamped into the
    /// 32-bit KSUID range), a random draw decides the payload, so nothing
    /// is promised of either field.
    pub fn new() -> (r: Ksuid) {
        let unix = unix_now();
        let ts: u32 = if unix <= 1_400_000_000i64 {
            0
        } else if unix - 1_400_000_000i64 >= 0xffff_ffffi64 {
            0xffff_ffffu32
        } else {
            (unix - 1_400_000_000i64) as u32
        };
        Ksuid { timestamp: ts, payload: random_payload() }
    }

    /// The creation instant, as unix seconds.
    pub fn get_time(&self) -> (r: i64)
        ensures
            r == self.timestamp + ksuid_epoch(),
    {
        self.timestamp as i64 + 1_400_000_000i64
    }
}

} // verus!
