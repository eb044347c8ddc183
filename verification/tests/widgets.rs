use calendars_core::class_calendar::ClassCalendar;
use calendars_core::constraints::{AllowedClassroomTypes, Availability, ClassKey, ClassroomType, Classroom, Professor, Semester};
use calendars_core::school_schedule::{ClassFilter, SchoolSchedule};
use calendars_core::week_calendar::{Day, Timeslot};
use calendars_core::widgets::{ClassEditor, FilterButton, ProfessorScheduleWidget, SimpleScheduleWidget};

fn day(i: usize) -> Day {
    Day::from_usize(i).unwrap()
}

fn slot(i: usize) -> Timeslot {
    Timeslot::from_usize(i).unwrap()
}

#[test]
fn class_editor_search_ignores_case() {
    let mut editor = ClassEditor::default();
    assert!(editor.open);
    assert!(editor.shows_class("Álgebra Lineal"));
    editor.search_text = "LINEAL".to_string();
    assert!(editor.shows_class("Álgebra Lineal"));
    assert!(!editor.shows_class("Cálculo"));
    editor.search_text = "ÁLG".to_string();
    assert!(editor.shows_class("álgebra"));
}

fn two_class_schedule() -> SchoolSchedule {
    let mut schedule = SchoolSchedule::default();
    let p0 = schedule.add_new_professor();
    let p1 = schedule.add_new_professor();
    let k0 = schedule.add_new_class(p0);
    let k1 = schedule.add_new_class(p1);
    {
        let mut e = schedule.get_class_entry(k0).unwrap();
        e.set_hours(2);
        e.set_allowed_classroom_types(AllowedClassroomTypes::only(ClassroomType::LabQuimica));
    }
    {
        let mut e = schedule.get_class_entry(k1).unwrap();
        e.set_hours(1);
        e.set_semester(Semester::S3);
        e.set_allowed_classroom_types(AllowedClassroomTypes::only(ClassroomType::LabQuimica));
    }
    schedule
}

#[test]
fn schedule_widget_lists_the_classes_of_a_cell() {
    let schedule = two_class_schedule();
    let mut widget = SimpleScheduleWidget::default();
    assert!(!widget.open);
    assert_eq!(widget.cell_classes(&schedule, day(0), slot(0)), vec![(ClassKey(0), 2), (ClassKey(1), 1)]);
    assert_eq!(widget.cell_classes(&schedule, day(0), slot(1)), vec![(ClassKey(0), 0), (ClassKey(1), 0)]);
    widget.class_filter = ClassFilter::Semester(Semester::S3);
    assert_eq!(widget.cell_classes(&schedule, day(0), slot(0)), vec![(ClassKey(1), 1)]);
    widget.class_filter = ClassFilter::NoClass;
    assert!(widget.cell_classes(&schedule, day(0), slot(0)).is_empty());
    widget.class_filter = ClassFilter::Classroom(Classroom::LabQuimica);
    let shown = widget.cell_classes(&schedule, day(0), slot(0));
    assert_eq!(shown.len(), 1);
    widget.class_filter = ClassFilter::Classroom(Classroom::Aula1);
    assert!(widget.cell_classes(&schedule, day(0), slot(0)).is_empty());
    let _ = ClassCalendar::default();
}

#[test]
fn professor_widget_cycles_availability() {
    let mut professor = Professor::new();
    {
        let mut widget = ProfessorScheduleWidget::new(&mut professor);
        assert_eq!(widget.label(day(1), slot(2)), "2");
        widget.click(day(1), slot(2));
        assert_eq!(widget.label(day(1), slot(2)), "1");
        widget.click(day(1), slot(2));
        assert_eq!(widget.label(day(1), slot(2)), "3");
        widget.click(day(1), slot(2));
        assert_eq!(widget.label(day(1), slot(2)), "2");
        widget.click(day(1), slot(2));
    }
    assert_eq!(*professor.availability.get(day(1), slot(2)), Availability::Available);
    assert_eq!(*professor.availability.get(day(1), slot(3)), Availability::AvailableIfNeeded);
}

#[test]
fn class_editor_adds_classes_and_names_professors() {
    let editor = ClassEditor::default();
    let mut schedule = SchoolSchedule::default();
    let k0 = editor.add_class(&mut schedule);
    assert_eq!(k0, ClassKey(0));
    assert_eq!(schedule.get_num_professors(), 1);
    assert_eq!(editor.professor_label(&schedule, k0), "Nuevo Profesor");
    let k1 = editor.add_class(&mut schedule);
    assert_eq!(k1, ClassKey(1));
    assert_eq!(schedule.get_num_professors(), 1);
    schedule.get_class_entry(k1).unwrap().set_professor_id(calendars_core::constraints::ProfessorKey(5));
    assert_eq!(editor.professor_label(&schedule, k1), "Undefined Professor");
}

#[test]
fn professor_editor_opens_the_availability_editor() {
    let mut schedule = SchoolSchedule::default();
    let mut selected = None;
    let mut open = false;
    {
        let mut editor = calendars_core::widgets::ProfessorEditor::new(&mut schedule, &mut selected, &mut open);
        let p = editor.add_professor();
        editor.edit_availability(p);
    }
    assert_eq!(selected, Some(calendars_core::constraints::ProfessorKey(0)));
    assert!(open);
    assert_eq!(schedule.get_num_professors(), 1);
}

#[test]
fn filter_buttons_select_their_filters() {
    let mut widget = SimpleScheduleWidget::default();
    widget.click_filter(FilterButton::Profesor, 0);
    assert!(matches!(widget.class_filter, ClassFilter::Any));
    widget.click_filter(FilterButton::Profesor, 3);
    assert!(matches!(widget.class_filter, ClassFilter::Professor(k) if k.0 == 0));
    widget.class_filter = ClassFilter::Semester(Semester::S4);
    widget.click_filter(FilterButton::Semestre, 3);
    assert!(matches!(widget.class_filter, ClassFilter::Semester(Semester::S4)));
    widget.click_filter(FilterButton::Aula, 3);
    assert!(matches!(widget.class_filter, ClassFilter::Classroom(Classroom::Aula5_6)));
    widget.click_filter(FilterButton::Todo, 3);
    assert!(matches!(widget.class_filter, ClassFilter::Any));
    widget.click_filter(FilterButton::Semestre, 3);
    assert!(matches!(widget.class_filter, ClassFilter::Semester(Semester::S1)));
}
