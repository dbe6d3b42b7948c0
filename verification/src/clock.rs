//! The wall clock, in the two units things are stamped with.

use std::time::{Duration, SystemTime};

use vstd::prelude::*;

verus! {

/// A moment of the machine's clock.
#[verifier::external_type_specification]
#[verifier::external_body]
pub struct ExSystemTime(SystemTime);

/// `SystemTime::now`. Nothing is claimed of the time it is.
#[verifier::external_body]
fn clock_now() -> (now: SystemTime) {
    SystemTime::now()
}

/// `SystemTime::duration_since` the `UNIX_EPOCH`; `None` for a moment before it.
/// Nothing is claimed of how long that is.
#[verifier::external_body]
fn since_epoch(now: SystemTime) -> (elapsed: Option<Duration>) {
    now.duration_since(SystemTime::UNIX_EPOCH).ok()
}

/// `Duration::as_secs`. A duration is opaque here, and nothing is claimed of it.
#[verifier::external_body]
fn whole_seconds(elapsed: Duration) -> (secs: u64) {
    elapsed.as_secs()
}

/// `Duration::as_millis`. A duration is opaque here, and nothing is claimed of it.
#[verifier::external_body]
fn whole_millis(elapsed: Duration) -> (millis: u128) {
    elapsed.as_millis()
}

/// Seconds since the epoch as a unix time, their low bits where they do not fit;
/// zero for a clock before it.
pub fn unix_seconds(elapsed: Option<u64>) -> (secs: i64)
    ensures
        elapsed is None ==> secs == 0,
        (elapsed matches Some(s) ==> secs == s as i64),
        (elapsed matches Some(s) ==> s <= i64::MAX ==> secs == s),
{
    match elapsed {
        Some(s) => s as i64,
        None => 0,
    }
}

/// Milliseconds since the epoch as a unix time in milliseconds, their low bits
/// where they do not fit; zero for a clock before it.
pub fn unix_millis(elapsed: Option<u128>) -> (millis: i64)
    ensures
        elapsed is None ==> millis == 0,
        (elapsed matches Some(ms) ==> millis == ms as i64),
        (elapsed matches Some(ms) ==> ms <= i64::MAX ==> millis == ms),
{
    match elapsed {
        Some(ms) => ms as i64,
        None => 0,
    }
}

/// Unix time now, in seconds. Which one it is depends on the machine's clock alone,
/// and every one is possible.
pub fn now_unix() -> (secs: i64) {
    match since_epoch(clock_now()) {
        Some(elapsed) => unix_seconds(Some(whole_seconds(elapsed))),
        None => unix_seconds(None),
    }
}

/// Unix time now, in milliseconds. Which one it is depends on the machine's clock
/// alone, and every one is possible.
pub fn now_ms() -> (millis: i64) {
    match since_epoch(clock_now()) {
        Some(elapsed) => unix_millis(Some(whole_millis(elapsed))),
        None => unix_millis(None),
    }
}

} // verus!
