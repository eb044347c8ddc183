use calendars_core::class_calendar::ClassCalendar;
use calendars_core::constraints::{AllowedClassroomTypes, Class, ClassroomType, OptimizationConstraints, ProfessorKey};
use calendars_core::day_penalties::{
    count_inconsistent_class_timeslots, count_incontinuous_classes, count_labs_on_different_days,
    count_outside_session_length,
};
use calendars_core::heuristics::same_timeslot_classes_count_per_semester;
use calendars_core::school_schedule::SchoolSchedule;
use calendars_core::week_calendar::{
    Day, Timeslot, TIMESLOT_08_00, TIMESLOT_09_00, TIMESLOT_10_00, TIMESLOT_11_00, TIMESLOT_12_00,
    TIMESLOT_13_00, TIMESLOT_15_00, TIMESLOT_16_00, TIMESLOT_17_00, TIMESLOT_18_00, TIMESLOT_19_00,
};

fn day(i: usize) -> Day {
    Day::from_usize(i).unwrap()
}

fn slot(i: usize) -> Timeslot {
    Timeslot::from_usize(i).unwrap()
}

#[test]
fn heuristics_count_outside_session_length_test() {
    let mut constraints = OptimizationConstraints::default();
    constraints.classes.push(Class::new(ProfessorKey(0)));
    let mut state = ClassCalendar::default();
    let k0 = state.new_class();
    let d0 = day(0);
    assert_eq!(count_outside_session_length(&state, 2, 4), 0);
    state.add_one_class(d0, slot(TIMESLOT_15_00), k0).unwrap();
    assert_eq!(count_outside_session_length(&state, 2, 4), 1);
    state.add_one_class(d0, slot(TIMESLOT_16_00), k0).unwrap();
    assert_eq!(count_outside_session_length(&state, 2, 4), 0);
    state.add_one_class(d0, slot(TIMESLOT_17_00), k0).unwrap();
    assert_eq!(count_outside_session_length(&state, 2, 4), 0);
    state.add_one_class(d0, slot(TIMESLOT_18_00), k0).unwrap();
    assert_eq!(count_outside_session_length(&state, 2, 4), 0);
    state.add_one_class(d0, slot(TIMESLOT_19_00), k0).unwrap();
    assert_eq!(count_outside_session_length(&state, 2, 4), 1);
}

#[test]
fn heuristics_count_inconsistent_class_timeslots_test() {
    let mut state = ClassCalendar::default();
    let mut keys = Vec::new();
    for _ in 0..8 {
        keys.push(state.new_class());
    }
    let k6 = keys[6];
    let k7 = keys[7];
    let d0 = day(0);
    let d3 = day(3);
    let d4 = day(4);
    assert_eq!(count_inconsistent_class_timeslots(&state), 0);
    state.add_one_class(d0, slot(TIMESLOT_18_00), k7).unwrap();
    assert_eq!(count_inconsistent_class_timeslots(&state), 0);
    state.add_one_class(d4, slot(TIMESLOT_18_00), k6).unwrap();
    assert_eq!(count_inconsistent_class_timeslots(&state), 0);
    state.add_one_class(d4, slot(TIMESLOT_18_00), k7).unwrap();
    assert_eq!(count_inconsistent_class_timeslots(&state), 0);
    state.add_one_class(d3, slot(TIMESLOT_19_00), k6).unwrap();
    assert_eq!(count_inconsistent_class_timeslots(&state), 2);
    state.add_one_class(d3, slot(TIMESLOT_18_00), k6).unwrap();
    assert_eq!(count_inconsistent_class_timeslots(&state), 1);
    state.add_one_class(d0, slot(TIMESLOT_19_00), k6).unwrap();
    assert_eq!(count_inconsistent_class_timeslots(&state), 0);
}

#[test]
fn heuristics_count_labs_on_different_days_test() {
    let mut schedule = SchoolSchedule::default();
    let p0 = schedule.add_new_professor();
    let k0 = schedule.add_new_class(p0);
    {
        let mut class_0 = schedule.get_class_entry(k0).unwrap();
        class_0.set_hours(3);
        class_0.set_allowed_classroom_types(AllowedClassroomTypes::only(ClassroomType::AulaSimple));
    }
    let k1 = schedule.add_new_class(p0);
    {
        let mut class_1 = schedule.get_class_entry(k1).unwrap();
        class_1.set_allowed_classroom_types(AllowedClassroomTypes::only(ClassroomType::LabFisica));
        class_1.set_hours(3);
    }
    let mut state = ClassCalendar::default();
    state.new_class();
    state.new_class();
    state.add_one_class(day(0), slot(TIMESLOT_08_00), k0).unwrap();
    state.add_one_class(day(1), slot(TIMESLOT_08_00), k0).unwrap();
    state.add_one_class(day(2), slot(TIMESLOT_08_00), k0).unwrap();
    state.add_one_class(day(0), slot(TIMESLOT_08_00), k1).unwrap();
    state.add_one_class(day(0), slot(TIMESLOT_09_00), k1).unwrap();
    state.add_one_class(day(0), slot(TIMESLOT_11_00), k1).unwrap();
    schedule.replace_class_calendar(state.clone()).unwrap();
    assert_eq!(
        count_labs_on_different_days(schedule.class_calendar(), schedule.get_simulation_constraints()),
        0
    );
    state.move_one_class(day(0), slot(TIMESLOT_09_00), day(1), slot(TIMESLOT_08_00), k1);
    schedule.replace_class_calendar(state).unwrap();
    assert_eq!(
        count_labs_on_different_days(schedule.class_calendar(), schedule.get_simulation_constraints()),
        1
    );
}

#[test]
fn heuristics_test_count_incontinuous_classes() {
    let mut state = ClassCalendar::default();
    assert_eq!(count_incontinuous_classes(&state), 0);
    let d2 = day(2);
    let d3 = day(3);
    let mut keys = Vec::new();
    for _ in 0..10 {
        keys.push(state.new_class());
    }
    let k7 = keys[7];
    let k9 = keys[9];
    state.add_one_class(d2, slot(TIMESLOT_08_00), k9).unwrap();
    assert_eq!(count_incontinuous_classes(&state), 0);
    state.add_one_class(d2, slot(TIMESLOT_09_00), k9).unwrap();
    assert_eq!(count_incontinuous_classes(&state), 0);
    state.add_one_class(d2, slot(TIMESLOT_11_00), k9).unwrap();
    assert_eq!(count_incontinuous_classes(&state), 1);
    state.add_one_class(d2, slot(TIMESLOT_13_00), k9).unwrap();
    assert_eq!(count_incontinuous_classes(&state), 1);
    state.add_one_class(d3, slot(TIMESLOT_13_00), k9).unwrap();
    assert_eq!(count_incontinuous_classes(&state), 1);
    state.add_one_class(d3, slot(TIMESLOT_11_00), k9).unwrap();
    assert_eq!(count_incontinuous_classes(&state), 2);
    state.add_one_class(d2, slot(TIMESLOT_10_00), k9).unwrap();
    assert_eq!(count_incontinuous_classes(&state), 2);
    state.add_one_class(d2, slot(TIMESLOT_12_00), k9).unwrap();
    assert_eq!(count_incontinuous_classes(&state), 1);
    state.add_one_class(d2, slot(TIMESLOT_10_00), k7).unwrap();
    assert_eq!(count_incontinuous_classes(&state), 1);
    state.add_one_class(d3, slot(TIMESLOT_11_00), k7).unwrap();
    assert_eq!(count_incontinuous_classes(&state), 1);
    state.add_one_class(d3, slot(TIMESLOT_09_00), k7).unwrap();
    assert_eq!(count_incontinuous_classes(&state), 2);
}

#[test]
fn test_same_timeslot_classes_count_per_semester() {
    let mut schedule = SchoolSchedule::default();
    let p0 = schedule.add_new_professor();
    let k0 = schedule.add_new_class(p0);
    let k1 = schedule.add_new_class(p0);
    schedule.get_class_entry(k0).unwrap().set_hours(1);
    schedule.get_class_entry(k1).unwrap().set_hours(1);
    let d0 = day(0);
    let t0 = slot(0);
    let mut calendar = schedule.class_calendar().clone();
    calendar.remove_one_class_anywhere(k0).unwrap();
    calendar.remove_one_class_anywhere(k1).unwrap();
    calendar.add_one_class(d0, t0, k0).unwrap();
    calendar.add_one_class(d0, t0, k1).unwrap();
    schedule.replace_class_calendar(calendar).unwrap();
    assert_eq!(
        same_timeslot_classes_count_per_semester(schedule.class_calendar(), schedule.get_simulation_constraints()),
        2
    );
}
