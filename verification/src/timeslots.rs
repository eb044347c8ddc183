//! Quarter-hour timeslots of a day: timeslot `t` starts at hour `t / 4`, minute
//! `15 * (t % 4)`.
use vstd::prelude::*;

verus! {

/// Number of quarter-hour timeslots in a day.
pub const QUARTER_TIMESLOT_COUNT: usize = 96;

/// Length of a quarter-hour timeslot, in minutes.
pub const TIMESLOT_MINUTE_LENGTH: usize = 15;

/// The hour at which quarter-hour timeslot `timeslot` starts (truncated to 32 bits, as
/// the hour of a timeslot past the range of `u32` hours has no meaning).
pub fn timeslot_start_hour(timeslot: usize) -> (r: u32)
    ensures
        timeslot / 4 <= u32::MAX ==> r == timeslot / 4,
        r == (timeslot / 4) as u32,
{
    (timeslot / 4) as u32
}

/// The minute at which quarter-hour timeslot `timeslot` starts: 0, 15, 30 or 45.
pub fn timeslot_start_minute(timeslot: usize) -> (r: u32)
    ensures
        r == 15 * (timeslot % 4),
{
    let q = timeslot % 4;
    if q == 0 {
        0
    } else if q == 1 {
        15
    } else if q == 2 {
        30
    } else {
        45
    }
}

/// The start hour and minute of a timeslot give back its start in minutes: the
/// timeslot's number times 15.
pub proof fn lemma_timeslot_start(timeslot: usize, hour: u32, minute: u32)
    requires
        timeslot / 4 <= u32::MAX,
        hour == (timeslot / 4) as u32,
        minute == 15 * (timeslot % 4),
    ensures
        60 * hour + minute == 15 * timeslot,
{
    assert(timeslot == 4 * (timeslot / 4) + timeslot % 4);
}

} // verus!
