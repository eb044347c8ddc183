//! State of the schedule's editing windows, and what they show: which classes the
//! class list shows for a search text, and which classes a cell of the week shows
//! under a filter.
use vstd::prelude::*;

use crate::class_calendar::ClassCalendar;
use crate::classroom_assignment::{is_maximum_cell_assignment, timeslot_assign_classrooms, ClassroomAssignmentKey};
use crate::constraints::{class_of_professor, Availability, Class, ClassKey, Classroom, Professor, ProfessorKey, Semester};
use crate::importer::{chars_of, contains_seq, has_infix};
use crate::school_schedule::{ClassFilter, SchoolSchedule};
use crate::week_calendar::{cell_index, Day, Timeslot};

verus! {

/// The lower-case form of a text, as `str::to_lowercase` gives it.
pub uninterp spec fn lowercase(s: Seq<char>) -> Seq<char>;

/// `str::to_lowercase`. Claimed: the result depends on the text alone; which text it
/// is (the Unicode lower-case mapping) is left to the standard library.
#[verifier::external_body]
fn to_lowercase(s: &str) -> (r: String)
    ensures
        r@ == lowercase(s@),
{
    s.to_lowercase()
}

/// The window that lists the classes for editing, with the text that they are
/// searched by.
#[derive(Clone, Debug)]
pub struct ClassEditor {
    pub search_text: String,
    pub open: bool,
}

impl Default for ClassEditor {
    /// An open window with an empty search.
    fn default() -> (r: Self)
        ensures
            r.search_text@ == Seq::<char>::empty(),
            r.open,
    {
        ClassEditor { search_text: String::new(), open: true }
    }
}

impl ClassEditor {
    /// Whether the list shows the class named `class_name`: its name contains the
    /// search text, both taken in lower case.
    pub fn shows_class(&self, class_name: &str) -> (r: bool)
        ensures
            r == contains_seq(lowercase(class_name@), lowercase(self.search_text@)),
    {
        let name = to_lowercase(class_name);
        let search = to_lowercase(self.search_text.as_str());
        let name_chars = chars_of(name.as_str());
        let search_chars = chars_of(search.as_str());
        has_infix(&name_chars, &search_chars)
    }

    /// The name shown for the professor of class `class_key`: the professor's name,
    /// or "Undefined Professor" when the class names no professor of the schedule.
    pub fn professor_label(&self, state: &SchoolSchedule, class_key: ClassKey) -> (r: String)
        requires
            state.wf(),
            class_key.0 < state.constraints().classes@.len(),
        ensures
            ({
                let p = state.constraints().classes@[class_key.0 as int].professor_key.0;
                r@ == if p < state.professor_meta().len() {
                    state.professor_meta()[p as int].name@
                } else {
                    "Undefined Professor"@
                }
            }),
    {
        let class = state.get_class(class_key);
        let professor_key = match class {
            Some(c) => c.professor_key,
            None => ProfessorKey(0),
        };
        match state.get_professor_metadata(professor_key) {
            Some(m) => m.name.clone(),
            None => String::from_str("Undefined Professor"),
        }
    }

    /// The button that adds a class: the new class is taught by the first professor,
    /// and a professor is added first when there is none.
    pub fn add_class(&self, state: &mut SchoolSchedule) -> (r: ClassKey)
        requires
            old(state).wf(),
        ensures
            final(state).wf(),
            r.0 == old(state).constraints().classes@.len(),
            final(state).constraints().classes@ == old(state).constraints().classes@.push(
                class_of_professor(ProfessorKey(0)),
            ),
            old(state).constraints().professors@.len() > 0 ==> final(state).constraints().professors@
                == old(state).constraints().professors@,
            old(state).constraints().professors@.len() == 0 ==> final(state).constraints().professors@.len() == 1,
    {
        let professor_key = if state.get_num_professors() > 0 {
            ProfessorKey(0)
        } else {
            state.add_new_professor()
        };
        state.add_new_class(professor_key)
    }
}

/// A button of the filter controls of the schedule window: everything ("Todo"), by
/// semester, by professor or by classroom.
#[derive(Clone, Copy, Debug, PartialEq, Eq)]
pub enum FilterButton {
    Todo,
    Semestre,
    Profesor,
    Aula,
}

/// The filter after a click on `button` under `filter`, with `num_professors`
/// professors: "Todo" selects the filter that shows every session; the other buttons keep
/// a filter of their own kind, and otherwise select the first semester, the first
/// professor (the button does nothing when there is none) or classroom 5-6.
pub open spec fn clicked_filter(filter: ClassFilter, button: FilterButton, num_professors: nat) -> ClassFilter {
    match button {
        FilterButton::Todo => ClassFilter::Any,
        FilterButton::Semestre => if filter is Semester {
            filter
        } else {
            ClassFilter::Semester(Semester::S1)
        },
        FilterButton::Profesor => if filter is Professor || num_professors == 0 {
            filter
        } else {
            ClassFilter::Professor(ProfessorKey(0))
        },
        FilterButton::Aula => if filter is Classroom {
            filter
        } else {
            ClassFilter::Classroom(Classroom::Aula5_6)
        },
    }
}

/// The window that draws the week of the schedule under a filter.
#[derive(Clone, Debug)]
pub struct SimpleScheduleWidget {
    pub class_filter: ClassFilter,
    pub open: bool,
}

impl Default for SimpleScheduleWidget {
    /// A closed window that shows every class.
    fn default() -> (r: Self)
        ensures
            r.class_filter matches ClassFilter::Any,
            !r.open,
    {
        SimpleScheduleWidget { class_filter: ClassFilter::Any, open: false }
    }
}

/// Class `k` passes a filter that is not by room: any class, no class, the classes
/// of a professor or those of a semester.
pub open spec fn class_passes(classes: Seq<Class>, k: int, filter: ClassFilter) -> bool {
    match filter {
        ClassFilter::Any => true,
        ClassFilter::Professor(p) => classes[k].professor_key == p,
        ClassFilter::Semester(s) => classes[k].semester == s,
        _ => false,
    }
}

/// The room assignment `a` gives room `room` to class `k`.
pub open spec fn room_holds(a: Seq<(ClassroomAssignmentKey, Classroom)>, k: int, room: Classroom) -> bool {
    exists|i: int| 0 <= i < a.len() && #[trigger] a[i].0.class_key.0 == k && a[i].1 == room
}

/// Class `k` is shown in a cell whose rooms are assigned by `a`.
pub open spec fn cell_shows(
    classes: Seq<Class>,
    a: Seq<(ClassroomAssignmentKey, Classroom)>,
    k: int,
    filter: ClassFilter,
) -> bool {
    match filter {
        ClassFilter::Classroom(room) => room_holds(a, k, room),
        _ => class_passes(classes, k, filter),
    }
}

/// The classes among the first `n` that a cell (`d`, `t`) shows, in order of key,
/// each with its number of sessions there.
pub open spec fn cell_listing(
    calendar: ClassCalendar,
    classes: Seq<Class>,
    a: Seq<(ClassroomAssignmentKey, Classroom)>,
    filter: ClassFilter,
    d: int,
    t: int,
    n: int,
) -> Seq<(ClassKey, u8)>
    decreases n,
{
    if n <= 0 {
        Seq::empty()
    } else {
        let prev = cell_listing(calendar, classes, a, filter, d, t, n - 1);
        if cell_shows(classes, a, n - 1, filter) {
            prev.push((ClassKey((n - 1) as usize), calendar.count(n - 1, d, t) as u8))
        } else {
            prev
        }
    }
}

/// Whether `a` gives room `room` to class `k`.
fn room_given(a: &Vec<(ClassroomAssignmentKey, Classroom)>, k: usize, room: Classroom) -> (r: bool)
    ensures
        r == room_holds(a@, k as int, room),
{
    let mut i: usize = 0;
    while i < a.len()
        invariant
            i <= a@.len(),
            forall|j: int| 0 <= j < i ==> !(a@[j].0.class_key.0 == k && a@[j].1 == room),
        decreases a@.len() - i,
    {
        if a[i].0.class_key.0 == k && a[i].1.index() == room.index() {
            assert(a@[i as int].1 == room);
            return true;
        }
        i = i + 1;
    }
    proof {
        if room_holds(a@, k as int, room) {
            let j = choose|j: int| 0 <= j < a@.len() && #[trigger] a@[j].0.class_key.0 == k && a@[j].1 == room;
            assert(!(a@[j].0.class_key.0 == k && a@[j].1 == room));
        }
    }
    false
}

impl SimpleScheduleWidget {
    /// A click on a filter button, in a school of `num_professors` professors.
    pub fn click_filter(&mut self, button: FilterButton, num_professors: usize)
        ensures
            final(self).open == old(self).open,
            final(self).class_filter == clicked_filter(old(self).class_filter, button, num_professors as nat),
    {
        match button {
            FilterButton::Todo => {
                self.class_filter = ClassFilter::Any;
            },
            FilterButton::Semestre => {
                if !matches!(self.class_filter, ClassFilter::Semester(_)) {
                    self.class_filter = ClassFilter::Semester(Semester::S1);
                }
            },
            FilterButton::Profesor => {
                if !matches!(self.class_filter, ClassFilter::Professor(_)) && num_professors > 0 {
                    self.class_filter = ClassFilter::Professor(ProfessorKey(0));
                }
            },
            FilterButton::Aula => {
                if !matches!(self.class_filter, ClassFilter::Classroom(_)) {
                    self.class_filter = ClassFilter::Classroom(Classroom::Aula5_6);
                }
            },
        }
    }

    /// The classes drawn in cell (`day`, `timeslot`), in order of key, each with its
    /// number of sessions there. Under a filter by room, the rooms of the cell are
    /// assigned first (a maximum assignment) and the classes given that room are
    /// listed.
    pub fn cell_classes(&self, state: &SchoolSchedule, day: Day, timeslot: Timeslot) -> (r: Vec<(ClassKey, u8)>)
        requires
            state.wf(),
        ensures
            !(self.class_filter is Classroom) ==> r@ == cell_listing(
                state.calendar(),
                state.constraints().classes@,
                Seq::empty(),
                self.class_filter,
                day.index() as int,
                timeslot.index() as int,
                state.constraints().classes@.len() as int,
            ),
            self.class_filter is Classroom ==> exists|a: Seq<(ClassroomAssignmentKey, Classroom)>|
                {
                    &&& is_maximum_cell_assignment(
                        state.calendar(),
                        state.constraints(),
                        day.index() as int,
                        timeslot.index() as int,
                        a,
                    )
                    &&& r@ == cell_listing(
                        state.calendar(),
                        state.constraints().classes@,
                        a,
                        self.class_filter,
                        day.index() as int,
                        timeslot.index() as int,
                        state.constraints().classes@.len() as int,
                    )
                },
    {
        let constraints = state.get_simulation_constraints();
        let calendar = state.class_calendar();
        let ghost d = day.index() as int;
        let ghost t = timeslot.index() as int;
        let assignment = match self.class_filter {
            ClassFilter::Classroom(_) => timeslot_assign_classrooms(calendar, constraints, day, timeslot),
            _ => Vec::new(),
        };
        let n = constraints.classes.len();
        let mut r: Vec<(ClassKey, u8)> = Vec::new();
        let mut k: usize = 0;
        while k < n
            invariant
                state.wf(),
                *constraints == state.constraints(),
                *calendar == state.calendar(),
                n == constraints.classes@.len(),
                d == day.index(),
                t == timeslot.index(),
                k <= n,
                r@ == cell_listing(*calendar, constraints.classes@, assignment@, self.class_filter, d, t, k as int),
            decreases n - k,
        {
            let shown = match self.class_filter {
                ClassFilter::Any => true,
                ClassFilter::Professor(p) => constraints.classes[k].professor_key.0 == p.0,
                ClassFilter::Semester(s) => constraints.classes[k].semester.to_u32() == s.to_u32(),
                ClassFilter::Classroom(room) => room_given(&assignment, k, room),
                ClassFilter::NoClass => false,
            };
            if shown {
                let count = calendar.get_count(day, timeslot, ClassKey(k));
                r.push((ClassKey(k), count));
            }
            k = k + 1;
        }
        r
    }
}

/// The availability that a click on a cell of the professor's week turns `a` into:
/// available becomes not available, not available becomes available if needed, and
/// available if needed becomes available.
pub open spec fn next_availability(a: Availability) -> Availability {
    match a {
        Availability::Available => Availability::NotAvailable,
        Availability::AvailableIfNeeded => Availability::Available,
        Availability::NotAvailable => Availability::AvailableIfNeeded,
    }
}

/// Three clicks on a cell bring back its availability.
pub proof fn lemma_three_clicks(a: Availability)
    ensures
        next_availability(next_availability(next_availability(a))) == a,
{
}

/// The window that edits the availability of one professor over the week.
pub struct ProfessorScheduleWidget<'a> {
    pub state: &'a mut Professor,
}

impl<'a> ProfessorScheduleWidget<'a> {
    /// A window that edits `state`.
    pub fn new(state: &'a mut Professor) -> (r: ProfessorScheduleWidget<'a>)
        ensures
            *r.state == *old(state),
            *final(state) == *final(r.state),
    {
        ProfessorScheduleWidget { state }
    }

    /// The label of a cell: "1" when available, "2" when available if needed, "3"
    /// when not available.
    pub fn label(&self, day: Day, timeslot: Timeslot) -> (r: &'static str)
        ensures
            r@ == match old(self.state).availability.at(day.index() as int, timeslot.index() as int) {
                Availability::Available => "1"@,
                Availability::AvailableIfNeeded => "2"@,
                Availability::NotAvailable => "3"@,
            },
    {
        match self.state.availability.get(day, timeslot) {
            Availability::Available => "1",
            Availability::AvailableIfNeeded => "2",
            Availability::NotAvailable => "3",
        }
    }

    /// A click on cell (`day`, `timeslot`): its availability moves to the next one;
    /// the rest of the week is unchanged.
    pub fn click(&mut self, day: Day, timeslot: Timeslot)
        ensures
            *final(final(self).state) == *final(old(self).state),
            final(self).state.availability@ == old(self).state.availability@.update(
                cell_index(day.index() as int, timeslot.index() as int),
                next_availability(old(self).state.availability.at(day.index() as int, timeslot.index() as int)),
            ),
    {
        let av = self.state.availability.get_mut(day, timeslot);
        *av = match *av {
            Availability::Available => Availability::NotAvailable,
            Availability::AvailableIfNeeded => Availability::Available,
            Availability::NotAvailable => Availability::AvailableIfNeeded,
        };
    }
}

/// The window that lists the professors for editing, and where it sends the
/// professor whose availability is to be edited.
pub struct ProfessorEditor<'a> {
    pub state: &'a mut SchoolSchedule,
    pub availability_editor_professor_id: &'a mut Option<ProfessorKey>,
    pub availability_editor_widget_open: &'a mut bool,
}

impl<'a> ProfessorEditor<'a> {
    /// An editor of `state` that opens the availability editor through the two
    /// other references.
    pub fn new(
        state: &'a mut SchoolSchedule,
        availability_editor_professor_id: &'a mut Option<ProfessorKey>,
        availability_editor_widget_open: &'a mut bool,
    ) -> (r: ProfessorEditor<'a>)
        ensures
            *r.state == *old(state),
            *r.availability_editor_professor_id == *old(availability_editor_professor_id),
            *r.availability_editor_widget_open == *old(availability_editor_widget_open),
            *final(state) == *final(r.state),
            *final(availability_editor_professor_id) == *final(r.availability_editor_professor_id),
            *final(availability_editor_widget_open) == *final(r.availability_editor_widget_open),
    {
        ProfessorEditor { state, availability_editor_professor_id, availability_editor_widget_open }
    }

    /// The button "edit availability" of professor `professor_id`: the availability
    /// editor opens on that professor.
    pub fn edit_availability(&mut self, professor_id: ProfessorKey)
        ensures
            *final(final(self).state) == *final(old(self).state),
            *final(final(self).availability_editor_professor_id) == *final(old(self).availability_editor_professor_id),
            *final(final(self).availability_editor_widget_open) == *final(old(self).availability_editor_widget_open),
            *final(self).state == *old(self).state,
            *final(self).availability_editor_professor_id == Some(professor_id),
            *final(self).availability_editor_widget_open,
    {
        *self.availability_editor_professor_id = Some(professor_id);
        *self.availability_editor_widget_open = true;
    }

    /// The button "+": adds a professor.
    pub fn add_professor(&mut self) -> (r: ProfessorKey)
        requires
            old(self).state.wf(),
        ensures
            *final(final(self).state) == *final(old(self).state),
            *final(final(self).availability_editor_professor_id) == *final(old(self).availability_editor_professor_id),
            *final(final(self).availability_editor_widget_open) == *final(old(self).availability_editor_widget_open),
            final(self).state.wf(),
            r.0 == old(self).state.constraints().professors@.len(),
            final(self).state.constraints().professors@.len() == old(self).state.constraints().professors@.len() + 1,
            final(self).state.constraints().classes@ == old(self).state.constraints().classes@,
            final(self).state.professor_meta().last().name@ == "Nuevo Profesor"@,
            *final(self).availability_editor_professor_id == *old(self).availability_editor_professor_id,
            *final(self).availability_editor_widget_open == *old(self).availability_editor_widget_open,
    {
        self.state.add_new_professor()
    }
}

} // verus!
