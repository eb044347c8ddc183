use calendars_core::evaluators::{
    class_separation_count, colliding_count, daily_work_difference, daylight_count, gap_count,
    session_length_limits_count,
};
use calendars_core::registers::MetadataRegister;
use calendars_core::session_calendar::{CalendarState, DayTimeSlot, Session};

fn session(class_id: usize, day: usize, timeslot: usize) -> Session {
    Session { class_id, t: DayTimeSlot { day, timeslot } }
}

fn calendar(sessions: &[(usize, usize, usize)]) -> CalendarState {
    let mut state = CalendarState::new();
    for &(c, d, t) in sessions {
        state.increment_session(session(c, d, t));
    }
    state
}

#[test]
fn gap_count_counts_free_timeslots_inside_each_day() {
    assert_eq!(gap_count(&CalendarState::new()), 0);
    let state = calendar(&[(0, 0, 1), (1, 0, 4), (0, 2, 3), (0, 2, 4)]);
    assert_eq!(gap_count(&state), 2);
}

#[test]
fn daylight_counts_sessions_outside_waking_hours() {
    let state = calendar(&[(0, 0, 0), (0, 0, 0), (1, 1, 5), (2, 3, 11)]);
    assert_eq!(daylight_count(&state, 1, 10), 3);
    assert_eq!(daylight_count(&state, 0, 12), 0);
}

#[test]
fn class_separation_counts_extra_blocks() {
    let state = calendar(&[(0, 0, 0), (0, 0, 2), (0, 0, 5), (0, 1, 3), (0, 1, 4), (1, 2, 7)]);
    assert_eq!(class_separation_count(&state), 2);
}

#[test]
fn session_length_limits_counts_busy_and_free_blocks() {
    // one class, one busy block of 2 on Monday between free blocks of 3 and 7
    let state = calendar(&[(0, 0, 3), (0, 0, 4)]);
    // Monday: free 3 (ok), busy 2 (ok), free 7 (too long); other days: free 12 (too long)
    assert_eq!(session_length_limits_count(&state, 2, 4), 5);
    assert_eq!(session_length_limits_count(&state, 1, 20), 0);
}

#[test]
fn daily_work_difference_compares_busiest_and_quietest_days() {
    assert_eq!(daily_work_difference(&CalendarState::new()), 0);
    let state = calendar(&[(0, 0, 0), (1, 0, 1), (2, 0, 2), (0, 3, 0)]);
    assert_eq!(daily_work_difference(&state), 3);
}

#[test]
fn colliding_of_an_empty_calendar_is_zero() {
    assert_eq!(colliding_count(&CalendarState::new(), &MetadataRegister::new()), 0);
}
