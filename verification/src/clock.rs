//! The logical clock of a receiver.
//!
//! The clock advances by one tenth of a time unit on every tick, and jumps
//! past the timestamp of any message that comes from its future. The stored
//! value counts tenths, so a clock reading of `12` stands for time `1.2`.

use rand::Rng;
use vstd::prelude::*;

verus! {

/// Milliseconds between two ticks of the clock.
pub const TICK_INTERVAL_MILLIS: u64 = 100;

/// Tenths added to a received timestamp when the clock has to catch up with it
/// (one whole time unit).
pub const CATCH_UP_TENTHS: u64 = 10;

/// A logical clock, counted in tenths of a time unit.
#[derive(Debug)]
pub struct LogicClock {
    pub clock: u64,
}

impl Default for LogicClock {
    fn default() -> (c: LogicClock)
        ensures
            c.clock == 0,
    {
        LogicClock { clock: 0 }
    }
}

impl LogicClock {
    /// Advances the clock by one tenth.
    pub fn tick(&mut self)
        requires
            old(self).clock < u64::MAX,
        ensures
            final(self).clock == old(self).clock + 1,
    {
        self.clock = self.clock + 1;
    }
}

/// The clock value after a message stamped `received_time` arrives at a clock
/// that reads `current`.
pub open spec fn adjusted(current: u64, received_time: u64) -> int {
    if received_time > current {
        received_time + CATCH_UP_TENTHS
    } else {
        current as int
    }
}

/// Moves the clock past a timestamp that lies in its future; a timestamp that
/// is not ahead of the clock leaves it as it is.
pub fn adjust_time_clock(current: &mut LogicClock, received_time: u64)
    requires
        received_time + CATCH_UP_TENTHS <= u64::MAX,
    ensures
        final(current).clock == adjusted(old(current).clock, received_time),
        received_time > old(current).clock ==> final(current).clock == received_time + 10,
        received_time <= old(current).clock ==> final(current).clock == old(current).clock,
        final(current).clock >= old(current).clock,
        final(current).clock >= received_time,
{
    if received_time > current.clock {
        current.clock = received_time + CATCH_UP_TENTHS;
    }
}

/// Reads the clock as a message timestamp.
pub fn get_current_timestamp(value: &LogicClock) -> (t: Option<u64>)
    ensures
        t == Some(value.clock),
{
    Some(value.clock)
}

/// The inclusive range of ticks that a receiver waits before it acts: 1 to 3
/// ticks, so that the receivers' timestamps spread; the receiver with id 2
/// may wait the full 3, every other receiver 1 to 2.
pub open spec fn sleep_tick_bounds_spec(receiver_id: usize) -> (u64, u64) {
    if receiver_id == 2 {
        (1u64, 3u64)
    } else {
        (1u64, 2u64)
    }
}

/// The inclusive range of ticks that a receiver waits before it acts.
pub fn sleep_tick_bounds(receiver_id: usize) -> (bounds: (u64, u64))
    ensures
        bounds == sleep_tick_bounds_spec(receiver_id),
{
    if receiver_id == 2 {
        (1, 3)
    } else {
        (1, 2)
    }
}

/// `rand::Rng::gen_range` on an inclusive range of the thread-local generator:
/// its documentation and source give a value inside the range, and panic only
/// on an empty range. Which value comes out is left to chance.
#[verifier::external_body]
fn gen_range_inclusive(low: u64, high: u64) -> (r: u64)
    requires
        low <= high,
    ensures
        low <= r <= high,
{
    rand::thread_rng().gen_range(low..=high)
}

/// The length of `ticks` ticks, in milliseconds.
pub fn ticks_to_millis(ticks: u64) -> (millis: u64)
    requires
        ticks * TICK_INTERVAL_MILLIS <= u64::MAX,
    ensures
        millis == ticks * TICK_INTERVAL_MILLIS,
{
    ticks * TICK_INTERVAL_MILLIS
}

/// Draws how long a receiver waits before it acts, in milliseconds: a random
/// whole number of ticks within `sleep_tick_bounds(receiver_id)`.
pub fn random_interval_millis(receiver_id: usize) -> (millis: u64)
    ensures
        millis % TICK_INTERVAL_MILLIS == 0,
        sleep_tick_bounds_spec(receiver_id).0 * TICK_INTERVAL_MILLIS <= millis,
        millis <= sleep_tick_bounds_spec(receiver_id).1 * TICK_INTERVAL_MILLIS,
{
    let (low, high) = sleep_tick_bounds(receiver_id);
    let ticks = gen_range_inclusive(low, high);
    ticks_to_millis(ticks)
}

/// Law: a timestamp from the clock's future moves the clock one whole time
/// unit (ten tenths) past it; any other timestamp leaves the clock as it is.
/// Either way the clock ends at or past the timestamp and never goes back.
pub proof fn lemma_adjust_catches_up(current: u64, received_time: u64)
    ensures
        received_time > current ==> adjusted(current, received_time) == received_time + 10,
        received_time > current ==> adjusted(current, received_time) > received_time,
        received_time <= current ==> adjusted(current, received_time) == current,
        adjusted(current, received_time) >= current,
        adjusted(current, received_time) >= received_time,
{
}

/// Law: adjusting the clock a second time to the same timestamp changes
/// nothing.
pub proof fn lemma_adjust_idempotent(current: u64, received_time: u64)
    requires
        received_time + CATCH_UP_TENTHS <= u64::MAX,
    ensures
        adjusted(adjusted(current, received_time) as u64, received_time) == adjusted(current, received_time),
{
}

} // verus!
