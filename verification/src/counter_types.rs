//! The message types shared by the client and the server, and the clock.

use vstd::prelude::*;

verus! {

/// A counter's running total, stamped with the minute during which it
/// was accumulated.
#[derive(Clone, Copy, Debug, PartialEq, Eq, Structural)]
pub struct CounterState {
    pub epoch_minutes: u64,
    pub count: u64,
}

/// One update for one counter: one or two per-minute states, oldest
/// first.
#[derive(Clone, Debug)]
pub struct CounterUpdateMessage {
    pub counter: String,
    pub state: Vec<CounterState>,
}

/// The wire message sum type: publish an update, or read a counter.
#[derive(Clone, Debug)]
pub enum CounterMessage {
    Read(String),
    Update(CounterUpdateMessage),
}

/// Relies on std::time::SystemTime::now and duration_since(UNIX_EPOCH):
/// the number of whole seconds since the Unix epoch. The result depends
/// on the wall clock, so nothing is promised of it.
#[verifier::external_body]
fn epoch_seconds_now() -> u64 {
    std::time::SystemTime::now()
        .duration_since(std::time::UNIX_EPOCH)
        .expect("Time went backwards")
        .as_secs()
}

/// Whole minutes in an epoch-seconds reading: the seconds divided by
/// sixty, floored.
pub fn minutes_of(epoch_seconds: u64) -> (m: u64)
    ensures
        m == epoch_seconds / 60,
{
    epoch_seconds / 60
}

/// The current time in whole minutes since the Unix epoch: the clock's
/// seconds put through `minutes_of`. The seconds come from the wall
/// clock, so no contract pins the value itself down.
pub fn get_epoc_minutes() -> u64 {
    let epoch_seconds = epoch_seconds_now();
    minutes_of(epoch_seconds)
}

} // verus!
