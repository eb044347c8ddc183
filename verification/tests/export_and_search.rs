use rand::SeedableRng;

use calendars_core::annealing::{propose_move, random_init, revert_change, weighted_cost};
use calendars_core::bounds::SIZE_LIMIT;
use calendars_core::class_calendar::ClassCalendar;
use calendars_core::constraints::{AllowedClassroomTypes, ClassroomType};
use calendars_core::ics_export::{IcsEvent, SEMESTER_START_DAY, SEMESTER_START_MONTH, SEMESTER_START_YEAR};
use calendars_core::school_schedule::{ClassFilter, SchoolSchedule};
use calendars_core::week_calendar::{Day, Timeslot};

fn day(i: usize) -> Day {
    Day::from_usize(i).unwrap()
}

fn slot(i: usize) -> Timeslot {
    Timeslot::from_usize(i).unwrap()
}

#[test]
fn ics_events_use_local_school_time() {
    assert_eq!((SEMESTER_START_YEAR, SEMESTER_START_MONTH, SEMESTER_START_DAY), (2022, 8, 8));
    let mut schedule = SchoolSchedule::default();
    let p = schedule.add_new_professor();
    let k = schedule.add_new_class(p);
    schedule.get_class_entry(k).unwrap().set_hours(3);
    schedule.get_class_metadata_mut(k).unwrap().name = "Quimica".to_string();
    let mut calendar = ClassCalendar::default();
    calendar.new_class();
    calendar.add_one_class(day(0), slot(0), k).unwrap();
    calendar.add_one_class(day(0), slot(1), k).unwrap();
    calendar.add_one_class(day(2), slot(3), k).unwrap();
    schedule.replace_class_calendar(calendar).unwrap();
    let events: Vec<IcsEvent> = schedule.ics_events(&ClassFilter::Any).unwrap();
    assert_eq!(events.len(), 2);
    assert_eq!(events[0].summary, "Quimica");
    // 2022-08-08 from 08:00 to 10:00 in Dublin (UTC+1): both timeslots are included
    assert_eq!(events[0].start, 1_659_942_000);
    assert_eq!(events[0].end, 1_659_949_200);
    // 2022-08-10 from 11:00 to 12:00 in Dublin
    assert_eq!(events[1].start, 1_660_125_600);
    assert_eq!(events[1].end, 1_660_129_200);
    assert!(schedule.ics_events(&ClassFilter::NoClass).unwrap().is_empty());
}

#[test]
fn ics_event_of_one_session_lasts_one_hour() {
    let mut schedule = SchoolSchedule::default();
    let p = schedule.add_new_professor();
    let k = schedule.add_new_class(p);
    schedule.get_class_entry(k).unwrap().set_hours(1);
    let events: Vec<IcsEvent> = schedule.ics_events(&ClassFilter::Any).unwrap();
    assert_eq!(events.len(), 1);
    assert_eq!(events[0].summary, "New Class");
    // 2022-08-08 from 08:00 to 09:00 in Dublin
    assert_eq!(events[0].start, 1_659_942_000);
    assert_eq!(events[0].end, 1_659_945_600);
}

#[test]
fn propose_move_reports_the_new_cost_and_can_be_undone() {
    let mut rng = rand_chacha::ChaCha8Rng::seed_from_u64(21);
    let mut schedule = SchoolSchedule::default();
    let p = schedule.add_new_professor();
    let k = schedule.add_new_class(p);
    schedule.get_class_entry(k).unwrap().set_hours(2);
    schedule
        .get_class_entry(k)
        .unwrap()
        .set_allowed_classroom_types(AllowedClassroomTypes::only(ClassroomType::AulaSimple));
    let constraints = schedule.get_simulation_constraints().clone();
    let mut state = schedule.class_calendar().clone();
    assert!(state.get_entries().len() <= SIZE_LIMIT);
    let before = weighted_cost(&state, &constraints);
    for _ in 0..10 {
        let (delta, cost) = propose_move(&mut state, &constraints, &mut rng).unwrap();
        assert_eq!(cost, weighted_cost(&state, &constraints));
        revert_change(&mut state, &delta);
        assert_eq!(weighted_cost(&state, &constraints), before);
        assert_eq!(state.get_count(day(0), slot(0), k), 2);
    }
    let mut empty = ClassCalendar::default();
    assert!(propose_move(&mut empty, &constraints, &mut rng).is_err());
}

#[test]
fn random_init_gives_every_class_its_hours() {
    let mut rng = rand_chacha::ChaCha8Rng::seed_from_u64(9);
    let mut schedule = SchoolSchedule::default();
    let p = schedule.add_new_professor();
    let k0 = schedule.add_new_class(p);
    let k1 = schedule.add_new_class(p);
    schedule.get_class_entry(k0).unwrap().set_hours(3);
    schedule.get_class_entry(k1).unwrap().set_hours(2);
    let calendar = random_init(schedule.get_simulation_constraints(), &mut rng);
    assert_eq!(calendar.class_count(), 2);
    assert_eq!(calendar.get_entries().len(), 5);
    assert!(schedule.replace_class_calendar(calendar).is_ok());
}
