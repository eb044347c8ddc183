use calendars_core::class_calendar::{ClassCalendar, SingleClassEntry};
use calendars_core::constraints::{ClassKey, Group, ProfessorKey, Semester};
use calendars_core::school_schedule::{ClassFilter, SchoolSchedule};
use calendars_core::week_calendar::{Day, Timeslot};

fn day(i: usize) -> Day {
    Day::from_usize(i).unwrap()
}

fn slot(i: usize) -> Timeslot {
    Timeslot::from_usize(i).unwrap()
}

#[test]
fn new_schedule_is_empty() {
    let schedule = SchoolSchedule::default();
    assert_eq!(schedule.get_num_classes(), 0);
    assert_eq!(schedule.get_num_professors(), 0);
    assert!(schedule.get_class(ClassKey(0)).is_none());
    assert!(schedule.get_professor_metadata(ProfessorKey(0)).is_none());
}

#[test]
fn added_professor_and_class_have_default_metadata() {
    let mut schedule = SchoolSchedule::default();
    let p = schedule.add_new_professor();
    assert_eq!(p, ProfessorKey(0));
    assert_eq!(schedule.get_professor_metadata(p).unwrap().name, "Nuevo Profesor");
    let k = schedule.add_new_class(p);
    assert_eq!(k, ClassKey(0));
    let meta = schedule.get_class_metadata(k).unwrap();
    assert_eq!(meta.name, "New Class");
    assert_eq!(meta.rgba, [255, 255, 224, 255]);
    assert_eq!(meta.class_code, "0000");
    let class = schedule.get_class(k).unwrap();
    assert_eq!(class.professor_key, p);
    assert_eq!(class.class_hours, 0);
    assert_eq!(schedule.class_calendar().class_count(), 1);
}

#[test]
fn set_hours_adds_and_removes_sessions() {
    let mut schedule = SchoolSchedule::default();
    let p = schedule.add_new_professor();
    let k = schedule.add_new_class(p);
    schedule.get_class_entry(k).unwrap().set_hours(4);
    assert_eq!(schedule.get_class(k).unwrap().class_hours, 4);
    assert_eq!(schedule.class_calendar().get_count(day(0), slot(0), k), 4);
    schedule.get_class_entry(k).unwrap().set_hours(1);
    assert_eq!(schedule.get_class(k).unwrap().class_hours, 1);
    assert_eq!(schedule.class_calendar().get_entries().len(), 1);
}

#[test]
fn class_entry_setters_change_one_field() {
    let mut schedule = SchoolSchedule::default();
    let p0 = schedule.add_new_professor();
    let p1 = schedule.add_new_professor();
    let k = schedule.add_new_class(p0);
    {
        let mut entry = schedule.get_class_entry(k).unwrap();
        entry.set_semester(Semester::S5);
        entry.set_group(Group::G3);
        entry.set_optative(true);
        entry.set_professor_id(p1);
    }
    let class = schedule.get_class(k).unwrap();
    assert_eq!(class.semester, Semester::S5);
    assert_eq!(class.group, Group::G3);
    assert!(class.optative);
    assert_eq!(class.professor_key, p1);
}

#[test]
fn replace_class_calendar_refuses_other_hours() {
    let mut schedule = SchoolSchedule::default();
    let p = schedule.add_new_professor();
    let k = schedule.add_new_class(p);
    schedule.get_class_entry(k).unwrap().set_hours(2);
    let mut calendar = ClassCalendar::default();
    let k2 = calendar.new_class();
    calendar.add_one_class(day(1), slot(1), k2).unwrap();
    assert!(schedule.replace_class_calendar(calendar.clone()).is_err());
    assert_eq!(schedule.class_calendar().get_count(day(0), slot(0), k), 2);
    calendar.add_one_class(day(2), slot(3), k2).unwrap();
    assert!(schedule.replace_class_calendar(calendar).is_ok());
    assert_eq!(schedule.class_calendar().get_count(day(0), slot(0), k), 0);
    assert_eq!(schedule.class_calendar().get_count(day(2), slot(3), k), 1);
}

#[test]
fn filter_class_by_professor_and_semester() {
    let mut schedule = SchoolSchedule::default();
    let p0 = schedule.add_new_professor();
    let p1 = schedule.add_new_professor();
    let k = schedule.add_new_class(p1);
    schedule.get_class_entry(k).unwrap().set_semester(Semester::S2);
    let entry = SingleClassEntry { day: day(0), timeslot: slot(0), class_key: k };
    assert!(schedule.filter_class(&entry, &ClassFilter::Any));
    assert!(!schedule.filter_class(&entry, &ClassFilter::NoClass));
    assert!(schedule.filter_class(&entry, &ClassFilter::Professor(p1)));
    assert!(!schedule.filter_class(&entry, &ClassFilter::Professor(p0)));
    assert!(schedule.filter_class(&entry, &ClassFilter::Semester(Semester::S2)));
    assert!(!schedule.filter_class(&entry, &ClassFilter::Semester(Semester::S1)));
}

#[test]
fn class_ranges_merge_consecutive_sessions() {
    let mut schedule = SchoolSchedule::default();
    let p = schedule.add_new_professor();
    let k = schedule.add_new_class(p);
    schedule.get_class_entry(k).unwrap().set_hours(3);
    let mut calendar = ClassCalendar::default();
    calendar.new_class();
    calendar.add_one_class(day(0), slot(0), k).unwrap();
    calendar.add_one_class(day(0), slot(1), k).unwrap();
    calendar.add_one_class(day(2), slot(5), k).unwrap();
    schedule.replace_class_calendar(calendar).unwrap();
    let ranges = schedule.class_ranges(&ClassFilter::Any);
    let found: Vec<(usize, usize, usize)> = ranges
        .iter()
        .map(|r| (r.day.to_usize(), r.start_timeslot.to_usize(), r.end_timeslot.to_usize()))
        .collect();
    assert_eq!(found, vec![(0, 0, 1), (2, 5, 5)]);
    assert!(schedule.class_ranges(&ClassFilter::NoClass).is_empty());
}

#[test]
fn metadata_can_be_edited() {
    let mut schedule = SchoolSchedule::default();
    let p = schedule.add_new_professor();
    let k = schedule.add_new_class(p);
    schedule.get_class_metadata_mut(k).unwrap().name = "Algebra".to_string();
    schedule.get_professor_metadata_mut(p).unwrap().name = "Ana".to_string();
    assert_eq!(schedule.get_class_metadata(k).unwrap().name, "Algebra");
    assert_eq!(schedule.get_professor_metadata(p).unwrap().name, "Ana");
    assert!(schedule.get_class_metadata_mut(ClassKey(7)).is_none());
    assert!(schedule.get_professor_mut(ProfessorKey(7)).is_none());
    assert!(schedule.get_professor_mut(p).is_some());
}

#[test]
fn filter_class_refuses_a_missing_class() {
    let mut schedule = SchoolSchedule::default();
    let p = schedule.add_new_professor();
    let missing = SingleClassEntry { day: day(1), timeslot: slot(1), class_key: ClassKey(4) };
    assert!(schedule.filter_class(&missing, &ClassFilter::Any));
    assert!(!schedule.filter_class(&missing, &ClassFilter::NoClass));
    assert!(!schedule.filter_class(&missing, &ClassFilter::Professor(p)));
    assert!(!schedule.filter_class(&missing, &ClassFilter::Semester(Semester::S1)));
}

#[test]
fn refused_calendar_leaves_the_schedule_unchanged() {
    let mut schedule = SchoolSchedule::default();
    let p = schedule.add_new_professor();
    let k = schedule.add_new_class(p);
    schedule.get_class_entry(k).unwrap().set_hours(2);
    let mut calendar = ClassCalendar::default();
    let k2 = calendar.new_class();
    calendar.add_one_class(day(3), slot(3), k2).unwrap();
    assert!(schedule.replace_class_calendar(calendar).is_err());
    assert_eq!(schedule.class_calendar().get_count(day(0), slot(0), k), 2);
    assert_eq!(schedule.class_calendar().get_entries().len(), 2);
    assert_eq!(schedule.get_num_classes(), 1);
}
