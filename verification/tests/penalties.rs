use rand::SeedableRng;
use calendars_core::annealing::{revert_change, swap_delta, weighted_cost, EVALUATORS_FACTOR, MAX_SESSION_LENGTH, MIN_SESSION_LENGTH};
use calendars_core::class_calendar::{ClassCalendar, ClassEntryDelta};
use calendars_core::classroom_assignment::{assign_classrooms, count_classroom_assignment_collisions, timeslot_assign_classrooms};
use calendars_core::constraints::{AllowedClassroomTypes, Availability, Class, ClassroomType, OptimizationConstraints, Professor, ProfessorKey};
use calendars_core::day_penalties::{count_available_if_needed, count_holes_per_semester, count_not_available};
use calendars_core::heuristics::{same_timeslot_classes_count, same_timeslot_classes_count_per_professor};
use calendars_core::school_schedule::SchoolSchedule;
use calendars_core::week_calendar::{Day, Timeslot};

fn day(i: usize) -> Day {
    Day::from_usize(i).unwrap()
}

fn slot(i: usize) -> Timeslot {
    Timeslot::from_usize(i).unwrap()
}

fn lab_constraints(n: usize) -> OptimizationConstraints {
    let mut constraints = OptimizationConstraints::default();
    constraints.professors.push(Professor::new());
    for _ in 0..n {
        let mut class = Class::new(ProfessorKey(0));
        class.allowed_classroom_types = AllowedClassroomTypes::only(ClassroomType::LabFisica);
        constraints.classes.push(class);
    }
    constraints
}

#[test]
fn weighted_cost_of_one_lone_session() {
    let mut schedule = SchoolSchedule::default();
    let p = schedule.add_new_professor();
    let k = schedule.add_new_class(p);
    schedule.get_class_entry(k).unwrap().set_hours(1);
    // no room can take it, it is a session of one timeslot, and the professor is only
    // available if needed
    assert_eq!(weighted_cost(schedule.class_calendar(), schedule.get_simulation_constraints()), 10000 + 1500 + 1250);
    schedule
        .get_class_entry(k)
        .unwrap()
        .set_allowed_classroom_types(AllowedClassroomTypes::only(ClassroomType::AulaSimple));
    assert_eq!(weighted_cost(schedule.class_calendar(), schedule.get_simulation_constraints()), 1500 + 1250);
}

#[test]
fn weighted_cost_of_empty_calendar_is_zero() {
    let schedule = SchoolSchedule::default();
    assert_eq!(weighted_cost(schedule.class_calendar(), schedule.get_simulation_constraints()), 0);
    assert_eq!(EVALUATORS_FACTOR, 1000);
    assert_eq!((MIN_SESSION_LENGTH, MAX_SESSION_LENGTH), (2, 4));
}

#[test]
fn collisions_count_sessions_without_a_room() {
    let constraints = lab_constraints(3);
    let mut state = ClassCalendar::default();
    let keys: Vec<_> = (0..3).map(|_| state.new_class()).collect();
    for k in &keys {
        state.add_one_class(day(1), slot(4), *k).unwrap();
    }
    assert_eq!(count_classroom_assignment_collisions(&state, &constraints), 2);
    let cell = timeslot_assign_classrooms(&state, &constraints, day(1), slot(4));
    assert_eq!(cell.len(), 1);
    assert_eq!(assign_classrooms(&state, &constraints).len(), 1);
    state.move_one_class(day(1), slot(4), day(2), slot(4), keys[0]);
    assert_eq!(count_classroom_assignment_collisions(&state, &constraints), 1);
    assert_eq!(assign_classrooms(&state, &constraints).len(), 2);
}

#[test]
fn same_timeslot_counts() {
    let constraints = lab_constraints(3);
    let mut state = ClassCalendar::default();
    let keys: Vec<_> = (0..3).map(|_| state.new_class()).collect();
    state.add_one_class(day(0), slot(0), keys[0]).unwrap();
    state.add_one_class(day(0), slot(0), keys[1]).unwrap();
    state.add_one_class(day(0), slot(1), keys[2]).unwrap();
    assert_eq!(same_timeslot_classes_count(&state), 2);
    assert_eq!(same_timeslot_classes_count_per_professor(&state, &constraints), 2);
    state.add_one_class(day(0), slot(0), keys[2]).unwrap();
    assert_eq!(same_timeslot_classes_count(&state), 3);
}

#[test]
fn availability_counts() {
    let mut constraints = lab_constraints(1);
    let mut state = ClassCalendar::default();
    let k = state.new_class();
    state.add_one_class(day(0), slot(0), k).unwrap();
    state.add_one_class(day(0), slot(1), k).unwrap();
    assert_eq!(count_available_if_needed(&state, &constraints), 2);
    assert_eq!(count_not_available(&state, &constraints), 0);
    constraints.professors[0].availability.set(day(0), slot(0), Availability::NotAvailable);
    constraints.professors[0].availability.set(day(0), slot(1), Availability::Available);
    assert_eq!(count_available_if_needed(&state, &constraints), 0);
    assert_eq!(count_not_available(&state, &constraints), 1);
}

#[test]
fn holes_per_semester() {
    let constraints = lab_constraints(2);
    let mut state = ClassCalendar::default();
    let k0 = state.new_class();
    let k1 = state.new_class();
    state.add_one_class(day(0), slot(0), k0).unwrap();
    state.add_one_class(day(0), slot(3), k1).unwrap();
    assert_eq!(count_holes_per_semester(&state, &constraints), 2);
    state.add_one_class(day(0), slot(1), k1).unwrap();
    assert_eq!(count_holes_per_semester(&state, &constraints), 1);
}

#[test]
fn revert_change_undoes_a_move() {
    let mut state = ClassCalendar::default();
    let k = state.new_class();
    state.add_one_class(day(0), slot(0), k).unwrap();
    let delta = ClassEntryDelta { class_key: k, src_day: day(0), src_timeslot: slot(0), dst_day: day(3), dst_timeslot: slot(7) };
    state.move_one_class(day(0), slot(0), day(3), slot(7), k);
    assert_eq!(state.get_count(day(3), slot(7), k), 1);
    revert_change(&mut state, &delta);
    assert_eq!(state.get_count(day(3), slot(7), k), 0);
    assert_eq!(state.get_count(day(0), slot(0), k), 1);
    let swapped = swap_delta(delta);
    assert_eq!(swapped.src_day, day(3));
    assert_eq!(swapped.dst_timeslot, slot(0));
    let back = swap_delta(swapped);
    assert_eq!(back.src_day, day(0));
    assert_eq!(back.dst_timeslot, slot(7));
}

#[test]
fn move_one_class_random_keeps_the_sessions() {
    let mut rng = rand_chacha::ChaCha8Rng::seed_from_u64(3);
    let mut state = ClassCalendar::default();
    assert!(state.move_one_class_random(&mut rng).is_err());
    let k = state.new_class();
    state.add_one_class(day(2), slot(2), k).unwrap();
    state.add_one_class(day(2), slot(3), k).unwrap();
    for _ in 0..20 {
        let delta = state.move_one_class_random(&mut rng).unwrap();
        assert_eq!(delta.class_key, k);
        assert!(state.get_count(delta.dst_day, delta.dst_timeslot, k) >= 1);
        assert_eq!(state.get_entries().len(), 2);
    }
}
