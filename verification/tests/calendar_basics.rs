use calendars_core::timeslots::{timeslot_start_hour, timeslot_start_minute, QUARTER_TIMESLOT_COUNT, TIMESLOT_MINUTE_LENGTH};
use calendars_core::week_calendar::{
    get_index, range_contains, timeslot_to_hour, Day, Timeslot, UsizeRange, WeekCalendar, DAY_COUNT, TIMESLOT_COUNT,
};

#[test]
fn quarter_timeslots_start_times() {
    assert_eq!(QUARTER_TIMESLOT_COUNT, 96);
    assert_eq!(TIMESLOT_MINUTE_LENGTH, 15);
    assert_eq!((timeslot_start_hour(0), timeslot_start_minute(0)), (0, 0));
    assert_eq!((timeslot_start_hour(37), timeslot_start_minute(37)), (9, 15));
    assert_eq!((timeslot_start_hour(95), timeslot_start_minute(95)), (23, 45));
}

#[test]
fn week_calendar_cells() {
    assert_eq!(Day::all().len(), DAY_COUNT);
    assert_eq!(Timeslot::all().len(), TIMESLOT_COUNT);
    assert!(Day::from_usize(5).is_none());
    assert!(Timeslot::from_usize(12).is_none());
    let d = Day::from_usize(2).unwrap();
    let t = Timeslot::from_usize(7).unwrap();
    assert_eq!(get_index(d, t), 2 * TIMESLOT_COUNT + 7);
    assert_eq!(timeslot_to_hour(t), 15);
    let mut cal = WeekCalendar::filled(0u8);
    cal.set(d, t, 9);
    assert_eq!(*cal.get(d, t), 9);
    *cal.get_mut(d, Timeslot::from_usize(0).unwrap()) = 4;
    assert_eq!(*cal.get(d, Timeslot::from_usize(0).unwrap()), 4);
    assert!(WeekCalendar::try_from_vec(vec![1u8; 3]).is_err());
    assert!(WeekCalendar::try_from_vec(vec![1u8; 60]).is_ok());
    assert!(range_contains(UsizeRange { start: 2, end: 5 }, 4));
    assert!(!range_contains(UsizeRange { start: 2, end: 5 }, 5));
}
