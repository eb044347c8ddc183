use rand::SeedableRng;

use calendars_core::annealing::{propose_move, revert_change};
use calendars_core::class_calendar::{ClassCalendar, MoveOneClassRandomError, SingleClassEntry};
use calendars_core::constraints::{Availability, ClassKey, ClassroomType, Group, ProfessorKey, Semester};
use calendars_core::importer::ProfessorRow;
use calendars_core::legacy_import::{school_from_legacy_rows, MateriaRow};
use calendars_core::real_counter::RealCounter;
use calendars_core::school_schedule::SchoolSchedule;
use calendars_core::session_calendar::{CalendarState, DayTimeSlot, Session};
use calendars_core::week_calendar::{Day, Timeslot};

fn day(i: usize) -> Day {
    Day::from_usize(i).unwrap()
}

fn slot(i: usize) -> Timeslot {
    Timeslot::from_usize(i).unwrap()
}

fn professor(nombre: &str, rfc: &str) -> ProfessorRow {
    ProfessorRow { nombre: nombre.to_string(), rfc: rfc.to_string() }
}

fn materia(asignatura: &str, descripcion: &str, rfc1: &str, rfc2: &str, grupo: &str, ciclo: &str) -> MateriaRow {
    MateriaRow {
        grupo: grupo.to_string(),
        asignatura: asignatura.to_string(),
        descripcion: descripcion.to_string(),
        rfc1: rfc1.to_string(),
        rfc2: rfc2.to_string(),
        ciclo: ciclo.to_string(),
    }
}

fn sorted_entries(calendar: &ClassCalendar) -> Vec<(usize, usize, usize)> {
    let mut v: Vec<(usize, usize, usize)> = calendar
        .get_entries()
        .iter()
        .map(|e: &SingleClassEntry| (e.class_key.0, e.day.to_usize(), e.timeslot.to_usize()))
        .collect();
    v.sort();
    v
}

#[test]
fn move_entry_to_moves_the_chosen_session() {
    let mut calendar = ClassCalendar::default();
    let k = calendar.new_class();
    calendar.add_one_class(day(1), slot(2), k).unwrap();
    calendar.add_one_class(day(3), slot(4), k).unwrap();
    let delta = calendar.move_entry_to(1, day(0), slot(5)).unwrap();
    assert_eq!(delta.class_key, k);
    assert_eq!((delta.src_day, delta.src_timeslot), (day(3), slot(4)));
    assert_eq!((delta.dst_day, delta.dst_timeslot), (day(0), slot(5)));
    assert_eq!(calendar.get_count(day(3), slot(4), k), 0);
    assert_eq!(calendar.get_count(day(0), slot(5), k), 1);
    assert_eq!(calendar.get_entries()[1].day, day(0));
    assert_eq!(calendar.get_entries()[1].timeslot, slot(5));
}

#[test]
fn move_entry_to_refuses_a_full_cell() {
    let mut calendar = ClassCalendar::default();
    let k = calendar.new_class();
    for _ in 0..255 {
        calendar.add_one_class(day(4), slot(11), k).unwrap();
    }
    calendar.add_one_class(day(0), slot(0), k).unwrap();
    let before = sorted_entries(&calendar);
    let r = calendar.move_entry_to(255, day(4), slot(11));
    assert!(matches!(r, Err(MoveOneClassRandomError::RandomChosenDestinationFull)));
    assert_eq!(sorted_entries(&calendar), before);
    assert_eq!(calendar.get_count(day(4), slot(11), k), 255);
}

#[test]
fn random_move_succeeds_when_no_cell_is_full() {
    let mut rng = rand_chacha::ChaCha8Rng::seed_from_u64(8);
    let mut calendar = ClassCalendar::default();
    assert!(matches!(calendar.move_one_class_random(&mut rng), Err(MoveOneClassRandomError::NoClassesToMove)));
    let a = calendar.new_class();
    let b = calendar.new_class();
    calendar.add_one_class(day(0), slot(0), a).unwrap();
    calendar.add_one_class(day(2), slot(7), b).unwrap();
    for _ in 0..50 {
        assert!(calendar.move_one_class_random(&mut rng).is_ok());
        assert_eq!(calendar.get_entries().len(), 2);
    }
}

#[test]
fn propose_then_revert_restores_the_sessions() {
    let mut rng = rand_chacha::ChaCha8Rng::seed_from_u64(13);
    let mut schedule = SchoolSchedule::default();
    let p = schedule.add_new_professor();
    let k = schedule.add_new_class(p);
    schedule.get_class_entry(k).unwrap().set_hours(4);
    let constraints = schedule.get_simulation_constraints().clone();
    let mut state = schedule.class_calendar().clone();
    let before = sorted_entries(&state);
    for _ in 0..10 {
        let (delta, _cost) = propose_move(&mut state, &constraints, &mut rng).unwrap();
        revert_change(&mut state, &delta);
        assert_eq!(sorted_entries(&state), before);
        assert_eq!(state.get_count(day(0), slot(0), k), 4);
    }
}

#[test]
fn decrement_to_zero_forgets_the_key() {
    let mut counter: RealCounter<usize> = RealCounter::new();
    counter.increment(4);
    counter.increment(6);
    counter.increment(6);
    assert_eq!(counter.count_unique(), 2);
    assert_eq!(counter.decrement(&6), Some(1));
    assert_eq!(counter.count_unique(), 2);
    assert_eq!(counter.decrement(&4), Some(0));
    assert_eq!(counter.count_unique(), 1);
    assert_eq!(counter.count_total(), 1);
    assert!(!counter.is_positive(&4));
}

#[test]
fn move_session_keeps_the_class_time() {
    let mut state = CalendarState::new();
    state.increment_session(Session { class_id: 3, t: DayTimeSlot { day: 2, timeslot: 5 } });
    state.increment_session(Session { class_id: 3, t: DayTimeSlot { day: 2, timeslot: 5 } });
    state.increment_session(Session { class_id: 1, t: DayTimeSlot { day: 0, timeslot: 0 } });
    assert_eq!(state.count_class_time(3), 2);
    assert!(state.move_session(3, DayTimeSlot { day: 2, timeslot: 5 }, DayTimeSlot { day: 4, timeslot: 0 }).is_ok());
    assert_eq!(state.count_class_time(3), 2);
    assert_eq!(state.count_class_time(1), 1);
}

#[test]
fn legacy_import_follows_the_old_rules() {
    let professors = vec![
        professor("Ana", "R1"),
        professor("Beto", "R2"),
        professor("Ana", "R1"),
        professor("Carla", "R2"),
    ];
    let mut classes = vec![
        materia("0101", "Fisica", "R1", "R2", "0302", "2023-2"),
        materia("0102", "Quimica", "R9", "  ", "xx", "2023-2"),
        materia("0103", "Historia", "R1", "", "0101", "2022-1"),
    ];
    for i in 0..12 {
        classes.push(materia("0200", &format!("Extra {}", i), "R1", "", "0101", "2023-2"));
    }
    let schedule = school_from_legacy_rows(&classes, &professors);
    // "Ana"/"R1" is kept once; "Carla" shares "R2" with "Beto" and takes that RFC
    assert_eq!(schedule.get_num_professors(), 3);
    assert_eq!(schedule.get_professor_metadata(ProfessorKey(0)).unwrap().name, "Ana");
    assert_eq!(schedule.get_professor_metadata(ProfessorKey(2)).unwrap().name, "Carla");
    let availability = &schedule.get_simulation_constraints().professors[1].availability;
    assert_eq!(*availability.get(day(2), slot(0)), Availability::NotAvailable);
    assert_eq!(*availability.get(day(2), slot(1)), Availability::AvailableIfNeeded);
    assert_eq!(*availability.get(day(2), slot(8)), Availability::AvailableIfNeeded);
    assert_eq!(*availability.get(day(2), slot(9)), Availability::NotAvailable);
    // ten rows of 2023-2: the first one with a laboratory, so eleven classes
    assert_eq!(schedule.get_num_classes(), 11);
    let theory = schedule.get_class(ClassKey(0)).unwrap();
    assert_eq!(theory.professor_key, ProfessorKey(0));
    assert_eq!(theory.semester, Semester::S3);
    assert_eq!(theory.group, Group::G2);
    assert_eq!(theory.class_hours, 1);
    assert!(theory.allowed_classroom_types.contains(ClassroomType::AulaSimple));
    assert!(!theory.allowed_classroom_types.contains(ClassroomType::AulaDoble));
    let lab = schedule.get_class(ClassKey(1)).unwrap();
    assert_eq!(lab.professor_key, ProfessorKey(2));
    assert_eq!(schedule.get_class_metadata(ClassKey(0)).unwrap().name, "0101 Fisica");
    assert_eq!(schedule.get_class_metadata(ClassKey(1)).unwrap().name, "0101 Fisica (Lab)");
    let unknown = schedule.get_class(ClassKey(2)).unwrap();
    assert_eq!(unknown.professor_key, ProfessorKey(0));
    assert_eq!(unknown.semester, Semester::S1);
    assert_eq!(unknown.group, Group::G1);
    assert_eq!(schedule.get_class_metadata(ClassKey(2)).unwrap().name, "0102 Quimica");
    assert_eq!(schedule.get_class_metadata(ClassKey(3)).unwrap().name, "0200 Extra 0");
    assert_eq!(schedule.get_class_metadata(ClassKey(10)).unwrap().name, "0200 Extra 7");
    assert_eq!(schedule.class_calendar().get_count(day(0), slot(0), ClassKey(1)), 1);
    assert_eq!(schedule.class_calendar().get_count(day(0), slot(1), ClassKey(1)), 0);
    assert_eq!(schedule.class_calendar().get_entries().len(), 11);
}

#[test]
fn increment_then_decrement_restores_the_counter() {
    let mut counter: RealCounter<usize> = RealCounter::new();
    counter.increment(2);
    counter.increment(7);
    counter.increment(7);
    let before = counter.iter();
    let total = counter.count_total();
    counter.increment(5);
    assert_eq!(counter.decrement(&5), Some(0));
    counter.increment(7);
    assert_eq!(counter.decrement(&7), Some(2));
    assert_eq!(counter.iter(), before);
    assert_eq!(counter.count_total(), total);
    let sum: usize = counter.iter().iter().map(|(_, v)| *v).sum();
    assert_eq!(sum, counter.count_total());
    assert_eq!(counter.count_unique(), counter.keys().len());
}
