use calendars_core::class_calendar::ClassCalendar;
use calendars_core::week_calendar::{Day, Timeslot, DAY_COUNT, TIMESLOT_COUNT};

#[test]
fn class_calendar_class_calendar_test() {
    let mut class_calendar = ClassCalendar::default();
    let k1 = class_calendar.new_class();
    let k2 = class_calendar.new_class();
    let _ = class_calendar.new_class();
    let k3 = class_calendar.new_class();
    let d0: Day = Day::from_usize(0).unwrap();
    let t1: Timeslot = Timeslot::from_usize(1).unwrap();

    class_calendar.add_one_class(d0, t1, k3).unwrap();
    class_calendar.add_one_class(d0, t1, k3).unwrap();
    assert_eq!(class_calendar.get_count(d0, t1, k1), 0);
    assert_eq!(class_calendar.get_count(d0, t1, k2), 0);
    assert_eq!(class_calendar.get_count(d0, t1, k3), 2);
    class_calendar.remove_one_class_anywhere(k3).unwrap();
    assert_eq!(class_calendar.get_count(d0, t1, k3), 1);
    class_calendar.add_one_class(d0, t1, k3).unwrap();
    class_calendar.add_one_class(d0, t1, k3).unwrap();
    class_calendar.add_one_class(d0, t1, k3).unwrap();
    class_calendar.add_one_class(d0, t1, k3).unwrap();
    class_calendar.add_one_class(d0, t1, k3).unwrap();
    assert_eq!(class_calendar.get_count(d0, t1, k3), 6);
    class_calendar.remove_one_class_anywhere(k3).unwrap();
    class_calendar.remove_one_class_anywhere(k3).unwrap();
    class_calendar.remove_one_class_anywhere(k3).unwrap();
    class_calendar.remove_one_class_anywhere(k3).unwrap();
    assert_eq!(class_calendar.get_count(d0, t1, k3), 2);
    class_calendar.remove_one_class(d0, t1, k3).unwrap();
    assert_eq!(class_calendar.get_count(d0, t1, k3), 1);
    class_calendar.remove_one_class_anywhere(k3).unwrap();
    assert_eq!(class_calendar.get_count(d0, t1, k3), 0);
}

#[test]
fn classes_iter_size_test() {
    let class_calendar = ClassCalendar::default();
    assert_eq!(class_calendar.iter_timeslots().len(), DAY_COUNT * TIMESLOT_COUNT);
}

#[test]
fn iter_timeslots_lists_counts_cell_by_cell() {
    let mut class_calendar = ClassCalendar::default();
    let k0 = class_calendar.new_class();
    let k1 = class_calendar.new_class();
    let d1 = Day::from_usize(1).unwrap();
    let t2 = Timeslot::from_usize(2).unwrap();
    class_calendar.add_one_class(d1, t2, k1).unwrap();
    class_calendar.add_one_class(d1, t2, k1).unwrap();
    class_calendar.add_one_class(d1, t2, k0).unwrap();
    let cells = class_calendar.iter_timeslots();
    assert_eq!(cells[TIMESLOT_COUNT + 2], vec![1, 2]);
    assert_eq!(cells[0], vec![0, 0]);
    assert_eq!(class_calendar.get_timeslot(d1, t2), vec![1, 2]);
}

#[test]
fn add_one_class_refuses_a_full_cell() {
    let mut class_calendar = ClassCalendar::default();
    let k0 = class_calendar.new_class();
    let d0 = Day::from_usize(0).unwrap();
    let t0 = Timeslot::from_usize(0).unwrap();
    for i in 1..=255u32 {
        assert_eq!(class_calendar.add_one_class(d0, t0, k0).unwrap() as u32, i);
    }
    assert!(class_calendar.add_one_class(d0, t0, k0).is_err());
    assert_eq!(class_calendar.get_count(d0, t0, k0), 255);
    assert_eq!(class_calendar.get_entries().len(), 255);
}

#[test]
fn remove_one_class_errors_when_nothing_to_remove() {
    let mut class_calendar = ClassCalendar::default();
    let k0 = class_calendar.new_class();
    let d0 = Day::from_usize(0).unwrap();
    let t0 = Timeslot::from_usize(0).unwrap();
    assert!(class_calendar.remove_one_class(d0, t0, k0).is_err());
    assert!(class_calendar.remove_one_class_anywhere(k0).is_err());
    assert_eq!(class_calendar.get_entries().len(), 0);
}

#[test]
fn move_one_class_moves_one_session() {
    let mut class_calendar = ClassCalendar::default();
    let k0 = class_calendar.new_class();
    let d0 = Day::from_usize(0).unwrap();
    let d4 = Day::from_usize(4).unwrap();
    let t0 = Timeslot::from_usize(0).unwrap();
    let t11 = Timeslot::from_usize(11).unwrap();
    class_calendar.add_one_class(d0, t0, k0).unwrap();
    class_calendar.add_one_class(d0, t0, k0).unwrap();
    class_calendar.move_one_class(d0, t0, d4, t11, k0);
    assert_eq!(class_calendar.get_count(d0, t0, k0), 1);
    assert_eq!(class_calendar.get_count(d4, t11, k0), 1);
    assert_eq!(class_calendar.get_entries().len(), 2);
}
