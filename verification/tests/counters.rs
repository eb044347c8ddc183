use rand::SeedableRng;

use calendars_core::real_counter::RealCounter;
use calendars_core::registers::{Classes, MetadataRegister, ProfessorMetadata, Register, MAX_CLASSES};
use calendars_core::session_calendar::{
    random_shift_bounded, CalendarState, CalendarWidget, DayTimeSlot, MoveDay, MoveHour, Perturbator, Session,
};
use calendars_core::week_calendar::{UsizeRange, DAY_COUNT, TIMESLOT_COUNT};

#[test]
fn real_counter_counts_up_and_down() {
    let mut counter: RealCounter<usize> = RealCounter::new();
    assert!(counter.is_empty());
    assert_eq!(counter.increment(3), 1);
    assert_eq!(counter.increment(3), 2);
    assert_eq!(counter.increment(5), 1);
    assert_eq!(counter.get_count(&3), 2);
    assert_eq!(counter.get_count(&4), 0);
    assert_eq!(counter.count_unique(), 2);
    assert_eq!(counter.count_total(), 3);
    assert_eq!(counter.keys(), vec![3, 5]);
    assert_eq!(counter.decrement(&3), Some(1));
    assert_eq!(counter.decrement(&3), Some(0));
    assert!(!counter.is_positive(&3));
    assert_eq!(counter.decrement(&3), None);
    assert_eq!(counter.count_total(), 1);
    assert_eq!(counter.iter(), vec![(5, 1)]);
    counter.remove(&5);
    assert!(counter.is_empty());
    counter.increment(9);
    counter.clear();
    assert_eq!(counter.count_total(), 0);
}

fn session(class_id: usize, day: usize, timeslot: usize) -> Session {
    Session { class_id, t: DayTimeSlot { day, timeslot } }
}

#[test]
fn calendar_state_tracks_sessions() {
    let mut state = CalendarState::new();
    state.increment_session(session(2, 1, 3));
    state.increment_session(session(2, 1, 3));
    state.increment_class_time(2);
    assert_eq!(state.count_class_time(2), 3);
    assert_eq!(state.get_session_set().get_count(&session(2, 1, 3)), 2);
    assert!(state.move_session(2, DayTimeSlot { day: 1, timeslot: 3 }, DayTimeSlot { day: 4, timeslot: 11 }).is_ok());
    assert_eq!(state.get_session_set().get_count(&session(2, 4, 11)), 1);
    assert_eq!(state.get_schedule_matrix().len(), DAY_COUNT * TIMESLOT_COUNT);
    assert!(state.decrement_class_time(2).is_ok());
    assert_eq!(state.get_session_set().get_count(&session(2, 0, 0)), 0);
    assert_eq!(state.count_class_time(2), 2);
    assert!(state.decrement_class_time(7).is_err());
    assert!(state.decrement_session(session(7, 0, 0)).is_err());
    state.remove_class(2);
    assert_eq!(state.count_class_time(2), 0);
    assert_eq!(state.get_session_set().count_total(), 0);
    state.increment_session(session(1, 0, 0));
    state.clear();
    assert_eq!(state.get_class_schedules().len(), 0);
    let widget = CalendarWidget::new(&state);
    assert_eq!(widget.state.get_session_set().count_total(), 0);
}

#[test]
fn perturbators_move_one_session_to_a_neighbour() {
    let mut rng = rand_chacha::ChaCha8Rng::seed_from_u64(11);
    let mut state = CalendarState::new();
    MoveHour::new().perturbate(&mut state, &mut rng);
    assert_eq!(state.get_session_set().count_total(), 0);
    state.increment_session(session(0, 2, 0));
    MoveHour::new().perturbate(&mut state, &mut rng);
    assert_eq!(state.get_session_set().get_count(&session(0, 2, 1)), 1);
    MoveDay::new().perturbate(&mut state, &mut rng);
    assert_eq!(state.get_session_set().count_total(), 1);
    assert_eq!(state.count_class_time(0), 1);
    let keys = state.get_session_set().keys();
    assert!(keys[0].t.day == 1 || keys[0].t.day == 3);
}

#[test]
fn random_shift_bounded_stays_in_range() {
    let mut rng = rand_chacha::ChaCha8Rng::seed_from_u64(5);
    assert_eq!(random_shift_bounded(0, UsizeRange { start: 0, end: 1 }, &mut rng), 0);
    assert_eq!(random_shift_bounded(0, UsizeRange { start: 0, end: 5 }, &mut rng), 1);
    assert_eq!(random_shift_bounded(4, UsizeRange { start: 0, end: 5 }, &mut rng), 3);
    for _ in 0..10 {
        let r = random_shift_bounded(2, UsizeRange { start: 0, end: 5 }, &mut rng);
        assert!(r == 1 || r == 3);
    }
}

#[test]
fn register_gives_back_what_was_added() {
    let mut register: Register<String> = Register::new();
    let a = register.add_entry("a".to_string());
    let b = register.add_entry("b".to_string());
    assert_eq!((a, b), (0, 1));
    assert_eq!(register.get_entry(&a), Some(&"a".to_string()));
    assert_eq!(register.remove_entry(&a), Some("a".to_string()));
    assert_eq!(register.get_entry(&a), None);
    assert_eq!(register.remove_entry(&a), None);
    assert_eq!(register.add_entry("c".to_string()), 2);
    assert_eq!(register.get_entry(&b), Some(&"b".to_string()));
}

#[test]
fn metadata_register_and_classes() {
    let mut register = MetadataRegister::new();
    assert_eq!(register.add_professor(ProfessorMetadata { name: "Ana".to_string() }), 0);
    assert_eq!(register.professor_register_len(), 1);
    assert_eq!(register.get_professor_metadata(0).unwrap().name, "Ana");
    assert!(register.get_class_metadata(0).is_none());
    register.get_professor_metadata_mut(0).unwrap().name = "Eva".to_string();
    assert_eq!(register.get_professor_metadata(0).unwrap().name, "Eva");
    let mut classes = Classes::new();
    *classes.index_mut(3) = 7;
    assert_eq!(*classes.index(3), 7);
    assert_eq!(classes.into_vec().len(), MAX_CLASSES);
}

#[test]
fn random_neighbor_moves_one_session() {
    let mut rng = rand_chacha::ChaCha8Rng::seed_from_u64(2);
    let mut state = CalendarState::new();
    assert!(state.get_random_neighbor(&mut rng).is_none());
    state.increment_session(session(4, 2, 5));
    for _ in 0..20 {
        let neighbor = state.get_random_neighbor(&mut rng).unwrap();
        assert_eq!(neighbor.get_session_set().count_total(), 1);
        assert_eq!(state.get_session_set().get_count(&session(4, 2, 5)), 1);
        let moved_to = neighbor.get_session_set().keys()[0];
        let same_day_step = moved_to.t.day == 2 && (moved_to.t.timeslot == 4 || moved_to.t.timeslot == 6);
        let day_step = moved_to.t.day == 1 || moved_to.t.day == 3;
        assert!(same_day_step || day_step);
    }
    let copy = state.copy();
    assert_eq!(copy.get_session_set().get_count(&session(4, 2, 5)), 1);
    assert_eq!(copy.count_class_time(4), 1);
}

#[test]
fn calendar_state_text_pads_cells_to_the_fullest() {
    let mut state = CalendarState::new();
    assert_eq!(state.to_text(), "- - - - - \n".repeat(12));
    state.increment_session(session(0, 0, 0));
    state.increment_session(session(0, 0, 0));
    state.increment_session(session(12, 0, 0));
    // the padding counts sessions, not characters
    let mut expected = String::from("0012 --- --- --- --- \n");
    expected.push_str(&"--- --- --- --- --- \n".repeat(11));
    assert_eq!(state.to_text(), expected);
}
