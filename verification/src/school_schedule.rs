//! A school's schedule: the classes and professors, their names and colours, and the
//! calendar of sessions, kept so that every class has as many sessions in the
//! calendar as its weekly hours.
use vstd::prelude::*;

use crate::class_calendar::{ClassCalendar, SingleClassEntry};
use crate::classroom_assignment::ClassroomAssignmentKey;
use crate::constraints::{
    class_of_professor, AllowedClassroomTypes, Availability, Class, ClassKey, Classroom, Group, OptimizationConstraints,
    Professor, ProfessorKey, Semester,
};
use crate::sums::{lemma_sum_ext, lemma_sum_nonneg, lemma_sum_update, lemma_sum_zero, lemma_term_le_sum, sum_to};
use crate::week_calendar::{
    cell_index, lemma_cell_index_bijective, Day, Timeslot, DATA_LEN, DAY_COUNT, TIMESLOT_COUNT,
};

verus! {

/// Which sessions to show: all, none, those of a professor, of a room or of a
/// semester.
#[derive(Debug, Clone, Copy)]
pub enum ClassFilter {
    Any,
    NoClass,
    Professor(ProfessorKey),
    Classroom(Classroom),
    Semester(Semester),
}

impl Default for ClassFilter {
    fn default() -> (r: ClassFilter)
        ensures
            r matches ClassFilter::Any,
    {
        ClassFilter::Any
    }
}

/// The new calendar does not give every class the same number of sessions as the
/// current one.
#[derive(Debug)]
pub struct ClassHourCountNotMatchingError {}

/// How a professor is shown.
#[derive(Clone, Debug)]
pub struct ProfessorMetadata {
    pub name: String,
}

/// How a class is shown: its name, its colour (red, green, blue, alpha) and its code.
#[derive(Clone, Debug)]
pub struct ClassMetadata {
    pub name: String,
    pub rgba: [u8; 4],
    pub class_code: String,
}

/// Sum over the week of one class's session counts.
pub open spec fn week_hours(row: Seq<u8>) -> int {
    sum_to(
        DAY_COUNT as int,
        |d: int| sum_to(TIMESLOT_COUNT as int, |t: int| row[cell_index(d, t)] as int),
    )
}

/// The sessions of class `k` in the calendar over the week.
pub open spec fn class_total(calendar: ClassCalendar, k: int) -> int {
    week_hours(calendar.counts()[k])
}

/// Changing one cell of a class's counts changes its week's sessions by as much.
pub proof fn lemma_week_hours_update(row: Seq<u8>, d0: int, t0: int, v: u8)
    requires
        row.len() == DATA_LEN,
        0 <= d0 < DAY_COUNT,
        0 <= t0 < TIMESLOT_COUNT,
    ensures
        week_hours(row.update(cell_index(d0, t0), v)) == week_hours(row) + v - row[cell_index(d0, t0)],
{
    let c0 = cell_index(d0, t0);
    let new = row.update(c0, v);
    let delta = v - row[c0];
    let row_old = |d: int| (|t: int| row[cell_index(d, t)] as int);
    let row_new = |d: int| (|t: int| new[cell_index(d, t)] as int);
    assert forall|d: int, t: int|
        0 <= d < DAY_COUNT && 0 <= t < TIMESLOT_COUNT && !(d == d0 && t == t0) implies #[trigger] row_new(d)(t)
        == row_old(d)(t) by {
        lemma_cell_index_bijective(d, t, d0, t0);
    }
    assert forall|d: int| 0 <= d < DAY_COUNT && d != d0 implies #[trigger] sum_to(
        TIMESLOT_COUNT as int,
        row_new(d),
    ) == sum_to(TIMESLOT_COUNT as int, row_old(d)) by {
        lemma_sum_ext(TIMESLOT_COUNT as int, row_old(d), row_new(d));
    }
    lemma_cell_index_bijective(d0, t0, d0, t0);
    lemma_sum_update(TIMESLOT_COUNT as int, row_old(d0), row_new(d0), t0, delta);
    lemma_sum_update(
        DAY_COUNT as int,
        |d: int| sum_to(TIMESLOT_COUNT as int, row_old(d)),
        |d: int| sum_to(TIMESLOT_COUNT as int, row_new(d)),
        d0,
        delta,
    );
    assert((|d: int| sum_to(TIMESLOT_COUNT as int, row_old(d))) =~= (|d: int|
        sum_to(TIMESLOT_COUNT as int, |t: int| row[cell_index(d, t)] as int)));
    assert((|d: int| sum_to(TIMESLOT_COUNT as int, row_new(d))) =~= (|d: int|
        sum_to(TIMESLOT_COUNT as int, |t: int| new[cell_index(d, t)] as int)));
}

/// One cell of a class's counts is at most its week's sessions.
pub proof fn lemma_cell_le_week_hours(row: Seq<u8>, d0: int, t0: int)
    requires
        0 <= d0 < DAY_COUNT,
        0 <= t0 < TIMESLOT_COUNT,
    ensures
        row[cell_index(d0, t0)] <= week_hours(row),
{
    let cells = |d: int| (|t: int| row[cell_index(d, t)] as int);
    let days = |d: int| sum_to(TIMESLOT_COUNT as int, cells(d));
    assert forall|d: int| 0 <= d < DAY_COUNT implies 0 <= #[trigger] days(d) by {
        lemma_sum_nonneg(TIMESLOT_COUNT as int, cells(d));
    }
    lemma_term_le_sum(TIMESLOT_COUNT as int, cells(d0), t0);
    lemma_term_le_sum(DAY_COUNT as int, days, d0);
    assert(days =~= (|d: int| sum_to(TIMESLOT_COUNT as int, |t: int| row[cell_index(d, t)] as int)));
}

/// A class with sessions over the week has a session in some cell.
pub proof fn lemma_week_hours_positive(row: Seq<u8>)
    requires
        week_hours(row) > 0,
    ensures
        exists|d: int, t: int|
            0 <= d < DAY_COUNT && 0 <= t < TIMESLOT_COUNT && #[trigger] row[cell_index(d, t)] > 0,
{
    if !exists|d: int, t: int|
        0 <= d < DAY_COUNT && 0 <= t < TIMESLOT_COUNT && #[trigger] row[cell_index(d, t)] > 0 {
        let cells = |d: int| (|t: int| row[cell_index(d, t)] as int);
        let days = |d: int| sum_to(TIMESLOT_COUNT as int, cells(d));
        assert forall|d: int| 0 <= d < DAY_COUNT implies #[trigger] days(d) == 0 by {
            assert forall|t: int| 0 <= t < TIMESLOT_COUNT implies #[trigger] cells(d)(t) == 0 by {
                assert(!(row[cell_index(d, t)] > 0));
            }
            lemma_sum_zero(TIMESLOT_COUNT as int, cells(d));
        }
        lemma_sum_zero(DAY_COUNT as int, days);
        assert(days =~= (|d: int| sum_to(TIMESLOT_COUNT as int, |t: int| row[cell_index(d, t)] as int)));
    }
}

/// A class without sessions has no sessions over the week.
pub proof fn lemma_week_hours_zero(row: Seq<u8>)
    requires
        forall|c: int| 0 <= c < DATA_LEN ==> #[trigger] row[c] == 0,
    ensures
        week_hours(row) == 0,
{
    let cells = |d: int| (|t: int| row[cell_index(d, t)] as int);
    let days = |d: int| sum_to(TIMESLOT_COUNT as int, cells(d));
    assert forall|d: int| 0 <= d < DAY_COUNT implies #[trigger] days(d) == 0 by {
        assert forall|t: int| 0 <= t < TIMESLOT_COUNT implies #[trigger] cells(d)(t) == 0 by {
            lemma_cell_index_bijective(d, t, d, t);
        }
        lemma_sum_zero(TIMESLOT_COUNT as int, cells(d));
    }
    lemma_sum_zero(DAY_COUNT as int, days);
    assert(days =~= (|d: int| sum_to(TIMESLOT_COUNT as int, |t: int| row[cell_index(d, t)] as int)));
}


/// A run of consecutive sessions of one class on one day, from `start_timeslot` to
/// `end_timeslot` (inclusive), shown as one event.
#[derive(Clone, Copy, Debug)]
pub struct ClassRange {
    pub class_key: ClassKey,
    pub day: Day,
    pub start_timeslot: Timeslot,
    pub end_timeslot: Timeslot,
}

/// Session `e` continues range `r`: same class, same day, and it starts right after
/// the range ends.
pub open spec fn extends(r: ClassRange, e: SingleClassEntry) -> bool {
    &&& r.class_key == e.class_key
    &&& r.day == e.day
    &&& r.end_timeslot.index() + 1 == e.timeslot.index()
}

/// The ranges after taking in session `e`: the first range that `e` continues is
/// lengthened to end at `e`; when there is none, `e` starts a range of its own.
pub open spec fn merge_entry(ranges: Seq<ClassRange>, e: SingleClassEntry) -> Seq<ClassRange> {
    if exists|i: int| 0 <= i < ranges.len() && extends(#[trigger] ranges[i], e) {
        let i = choose|i: int|
            0 <= i < ranges.len() && extends(#[trigger] ranges[i], e) && forall|j: int|
                0 <= j < i ==> !extends(#[trigger] ranges[j], e);
        ranges.update(i, ClassRange { end_timeslot: e.timeslot, ..ranges[i] })
    } else {
        ranges.push(
            ClassRange {
                class_key: e.class_key,
                day: e.day,
                start_timeslot: e.timeslot,
                end_timeslot: e.timeslot,
            },
        )
    }
}

/// The ranges made of the sessions of `entries` that pass the filter, taken in order.
pub open spec fn merge_entries(
    entries: Seq<SingleClassEntry>,
    classes: Seq<Class>,
    filter: ClassFilter,
) -> Seq<ClassRange>
    decreases entries.len(),
{
    if entries.len() == 0 {
        Seq::empty()
    } else {
        let prev = merge_entries(entries.drop_last(), classes, filter);
        if passes(classes, entries.last(), filter) {
            merge_entry(prev, entries.last())
        } else {
            prev
        }
    }
}

/// Session `e` passes `filter`, given the classes.
pub open spec fn passes(classes: Seq<Class>, e: SingleClassEntry, filter: ClassFilter) -> bool {
    match filter {
        ClassFilter::Professor(p) => e.class_key.0 < classes.len() && p == classes[e.class_key.0 as int].professor_key,
        ClassFilter::Semester(s) => e.class_key.0 < classes.len() && s == classes[e.class_key.0 as int].semester,
        ClassFilter::Any => true,
        _ => false,
    }
}

/// `class` with `class_hours` weekly hours.
pub open spec fn with_hours(class: Class, class_hours: u8) -> Class {
    Class { class_hours, ..class }
}

/// The classes, professors and session calendar of a school, with how each class and
/// professor is shown.
#[derive(Debug)]
pub struct SchoolSchedule {
    professor_metadata: Vec<ProfessorMetadata>,
    class_metadata: Vec<ClassMetadata>,
    simulation_constraints: OptimizationConstraints,
    class_calendar: ClassCalendar,
    classroom_assignments: Vec<(ClassroomAssignmentKey, Classroom)>,
}

impl SchoolSchedule {
    /// The classes and professors.
    pub closed spec fn constraints(self) -> OptimizationConstraints {
        self.simulation_constraints
    }

    /// The calendar of sessions.
    pub closed spec fn calendar(self) -> ClassCalendar {
        self.class_calendar
    }

    /// How each professor is shown.
    pub closed spec fn professor_meta(self) -> Seq<ProfessorMetadata> {
        self.professor_metadata@
    }

    /// How each class is shown.
    pub closed spec fn class_meta(self) -> Seq<ClassMetadata> {
        self.class_metadata@
    }

    /// The classroom kept for each session, as (session, classroom) pairs.
    pub closed spec fn classroom_assignments(self) -> Seq<(ClassroomAssignmentKey, Classroom)> {
        self.classroom_assignments@
    }

    /// Every professor and class has its metadata, the calendar is well formed and has
    /// the same classes, and every class has as many sessions as its weekly hours.
    pub open spec fn wf(self) -> bool {
        &&& self.professor_meta().len() == self.constraints().professors@.len()
        &&& self.class_meta().len() == self.constraints().classes@.len()
        &&& self.calendar().wf()
        &&& self.calendar().num_classes() == self.constraints().classes@.len()
        &&& forall|k: int|
            0 <= k < self.constraints().classes@.len() ==> #[trigger] class_total(self.calendar(), k)
                == self.constraints().classes@[k].class_hours
    }

    /// An empty schedule: no classes, no professors, no sessions.
    pub fn new() -> (r: SchoolSchedule)
        ensures
            r.wf(),
            r.constraints().classes@.len() == 0,
            r.constraints().professors@.len() == 0,
            r.calendar().entries().len() == 0,
            r.classroom_assignments().len() == 0,
    {
        SchoolSchedule {
            professor_metadata: Vec::new(),
            class_metadata: Vec::new(),
            simulation_constraints: OptimizationConstraints::new(),
            class_calendar: ClassCalendar::new(),
            classroom_assignments: Vec::new(),
        }
    }

    /// The classes and professors.
    pub fn get_simulation_constraints(&self) -> (r: &OptimizationConstraints)
        ensures
            *r == self.constraints(),
    {
        &self.simulation_constraints
    }

    /// The class with key `class_key`, when there is one.
    pub fn get_class(&self, class_key: ClassKey) -> (r: Option<&Class>)
        ensures
            r is Some <==> class_key.0 < self.constraints().classes@.len(),
            r matches Some(c) ==> *c == self.constraints().classes@[class_key.0 as int],
    {
        self.simulation_constraints.get_class(class_key)
    }

    /// How the class with key `class_key` is shown, when there is such a class.
    pub fn get_class_metadata(&self, class_key: ClassKey) -> (r: Option<&ClassMetadata>)
        ensures
            r is Some <==> class_key.0 < self.class_meta().len(),
            r matches Some(m) ==> *m == self.class_meta()[class_key.0 as int],
    {
        if class_key.0 < self.class_metadata.len() {
            Some(&self.class_metadata[class_key.0])
        } else {
            None
        }
    }

    /// How the professor with key `professor_key` is shown, when there is such a
    /// professor.
    pub fn get_professor_metadata(&self, professor_key: ProfessorKey) -> (r: Option<&ProfessorMetadata>)
        ensures
            r is Some <==> professor_key.0 < self.professor_meta().len(),
            r matches Some(m) ==> *m == self.professor_meta()[professor_key.0 as int],
    {
        if professor_key.0 < self.professor_metadata.len() {
            Some(&self.professor_metadata[professor_key.0])
        } else {
            None
        }
    }

    /// Number of classes.
    pub fn get_num_classes(&self) -> (r: usize)
        requires
            self.wf(),
        ensures
            r == self.constraints().classes@.len(),
            r == self.class_meta().len(),
    {
        self.simulation_constraints.classes.len()
    }

    /// Number of professors.
    pub fn get_num_professors(&self) -> (r: usize)
        requires
            self.wf(),
        ensures
            r == self.constraints().professors@.len(),
            r == self.professor_meta().len(),
    {
        self.simulation_constraints.professors.len()
    }

    /// `after` differs from `before` only in that class `k` is now `class`.
    pub open spec fn class_replaced(before: SchoolSchedule, after: SchoolSchedule, k: int, class: Class) -> bool {
        &&& after.constraints().classes@ == before.constraints().classes@.update(k, class)
        &&& after.constraints().professors@ == before.constraints().professors@
        &&& after.calendar() == before.calendar()
        &&& after.professor_meta() == before.professor_meta()
        &&& after.class_meta() == before.class_meta()
    }

    /// Adds a professor, available if needed in every timeslot and shown as
    /// "Nuevo Profesor", and returns their key.
    pub fn add_new_professor(&mut self) -> (r: ProfessorKey)
        requires
            old(self).wf(),
        ensures
            final(self).wf(),
            r.0 == old(self).constraints().professors@.len(),
            final(self).constraints().professors@.len() == old(self).constraints().professors@.len() + 1,
            final(self).constraints().professors@.drop_last() == old(self).constraints().professors@,
            forall|c: int|
                0 <= c < DATA_LEN ==> #[trigger] final(self).constraints().professors@.last().availability@[c]
                    == Availability::AvailableIfNeeded,
            final(self).constraints().classes@ == old(self).constraints().classes@,
            final(self).calendar() == old(self).calendar(),
            final(self).class_meta() == old(self).class_meta(),
            final(self).professor_meta().drop_last() == old(self).professor_meta(),
            final(self).professor_meta().last().name@ == "Nuevo Profesor"@,
    {
        let key = ProfessorKey(self.simulation_constraints.professors.len());
        let professor = Professor::new();
        self.simulation_constraints.professors.push(professor);
        let name = "Nuevo Profesor".to_owned();
        self.professor_metadata.push(ProfessorMetadata { name });
        proof {
            assert(self.simulation_constraints.professors@.drop_last() =~= old(self).simulation_constraints.professors@);
            assert(self.professor_metadata@.drop_last() =~= old(self).professor_metadata@);
        }
        key
    }

    /// Adds a class of professor `professor_key` (with no hours, no allowed classroom
    /// type, in the first semester and group) shown as "New Class" in light yellow with
    /// code "0000", and returns its key.
    pub fn add_new_class(&mut self, professor_key: ProfessorKey) -> (r: ClassKey)
        requires
            old(self).wf(),
        ensures
            final(self).wf(),
            r.0 == old(self).constraints().classes@.len(),
            final(self).constraints().classes@ == old(self).constraints().classes@.push(
                class_of_professor(professor_key),
            ),
            final(self).constraints().professors@ == old(self).constraints().professors@,
            final(self).calendar().counts() == old(self).calendar().counts().push(
                Seq::new(DATA_LEN as nat, |c: int| 0u8),
            ),
            final(self).calendar().entries() == old(self).calendar().entries(),
            final(self).professor_meta() == old(self).professor_meta(),
            final(self).class_meta().drop_last() == old(self).class_meta(),
            final(self).class_meta().last().name@ == "New Class"@,
            final(self).class_meta().last().rgba@ == seq![255u8, 255u8, 224u8, 255u8],
            final(self).class_meta().last().class_code@ == "0000"@,
    {
        let key = ClassKey(self.simulation_constraints.classes.len());
        let class = Class::new(professor_key);
        self.simulation_constraints.classes.push(class);
        let calendar_key = self.class_calendar.new_class();
        let name = "New Class".to_owned();
        let class_code = "0000".to_owned();
        self.class_metadata.push(ClassMetadata { name, rgba: [255, 255, 224, 255], class_code });
        proof {
            let n = old(self).simulation_constraints.classes@.len() as int;
            old(self).class_calendar.lemma_wf();
            self.class_calendar.lemma_wf();
            assert(self.class_metadata@.drop_last() =~= old(self).class_metadata@);
            assert forall|k: int| 0 <= k < self.simulation_constraints.classes@.len() implies #[trigger] class_total(
                self.class_calendar,
                k,
            ) == self.simulation_constraints.classes@[k].class_hours by {
                if k < n {
                    assert(self.class_calendar.counts()[k] == old(self).class_calendar.counts()[k]);
                    assert(class_total(old(self).class_calendar, k) == old(self).simulation_constraints.classes@[k].class_hours);
                } else {
                    lemma_week_hours_zero(self.class_calendar.counts()[k]);
                }
            }
        }
        key
    }

    /// Session totals per class of a calendar: entry `k` is the number of sessions of
    /// class `k` over the week.
    fn count_class_hours(class_calendar: &ClassCalendar) -> (r: Vec<u32>)
        requires
            class_calendar.wf(),
        ensures
            r@.len() == class_calendar.num_classes(),
            forall|k: int| 0 <= k < r@.len() ==> #[trigger] r@[k] == class_total(*class_calendar, k),
    {
        let n = class_calendar.class_count();
        let days = Day::all();
        let timeslots = Timeslot::all();
        let mut r: Vec<u32> = Vec::new();
        let mut k: usize = 0;
        while k < n
            invariant
                class_calendar.wf(),
                n == class_calendar.num_classes(),
                days@.len() == DAY_COUNT,
                forall|i: int| 0 <= i < DAY_COUNT ==> #[trigger] days@[i].index() == i,
                timeslots@.len() == TIMESLOT_COUNT,
                forall|i: int| 0 <= i < TIMESLOT_COUNT ==> #[trigger] timeslots@[i].index() == i,
                k <= n,
                r@.len() == k,
                forall|j: int| 0 <= j < k ==> #[trigger] r@[j] == class_total(*class_calendar, j),
            decreases n - k,
        {
            let ghost row = class_calendar.counts()[k as int];
            let ghost cells = |d: int| (|t: int| row[cell_index(d, t)] as int);
            let ghost days_sum = |d: int| sum_to(TIMESLOT_COUNT as int, cells(d));
            let mut sum: u32 = 0;
            let mut di: usize = 0;
            while di < DAY_COUNT
                invariant
                    class_calendar.wf(),
                    k < n,
                    n == class_calendar.num_classes(),
                    row == class_calendar.counts()[k as int],
                    cells == (|d: int| (|t: int| row[cell_index(d, t)] as int)),
                    days_sum == (|d: int| sum_to(TIMESLOT_COUNT as int, cells(d))),
                    days@.len() == DAY_COUNT,
                    forall|i: int| 0 <= i < DAY_COUNT ==> #[trigger] days@[i].index() == i,
                    timeslots@.len() == TIMESLOT_COUNT,
                    forall|i: int| 0 <= i < TIMESLOT_COUNT ==> #[trigger] timeslots@[i].index() == i,
                    di <= DAY_COUNT,
                    sum == sum_to(di as int, days_sum),
                    sum <= 3060 * di,
                decreases DAY_COUNT - di,
            {
                let mut day_sum: u32 = 0;
                let mut ti: usize = 0;
                while ti < TIMESLOT_COUNT
                    invariant
                        class_calendar.wf(),
                        k < n,
                        n == class_calendar.num_classes(),
                        row == class_calendar.counts()[k as int],
                        cells == (|d: int| (|t: int| row[cell_index(d, t)] as int)),
                        days@.len() == DAY_COUNT,
                        forall|i: int| 0 <= i < DAY_COUNT ==> #[trigger] days@[i].index() == i,
                        timeslots@.len() == TIMESLOT_COUNT,
                        forall|i: int| 0 <= i < TIMESLOT_COUNT ==> #[trigger] timeslots@[i].index() == i,
                        di < DAY_COUNT,
                        days_sum == (|d: int| sum_to(TIMESLOT_COUNT as int, cells(d))),
                        sum == sum_to(di as int, days_sum),
                        sum <= 3060 * di,
                        ti <= TIMESLOT_COUNT,
                        day_sum == sum_to(ti as int, cells(di as int)),
                        day_sum <= 255 * ti,
                    decreases TIMESLOT_COUNT - ti,
                {
                    let c = class_calendar.get_count(days[di], timeslots[ti], ClassKey(k));
                    assert(sum_to(ti + 1, cells(di as int)) == sum_to(ti as int, cells(di as int)) + cells(
                        di as int,
                    )(ti as int));
                    day_sum = day_sum + c as u32;
                    ti = ti + 1;
                }
                assert(sum_to(di + 1, days_sum) == sum_to(di as int, days_sum) + days_sum(di as int));
                sum = sum + day_sum;
                di = di + 1;
            }
            assert(days_sum =~= (|d: int|
                sum_to(TIMESLOT_COUNT as int, |t: int| row[cell_index(d, t)] as int)));
            r.push(sum);
            k = k + 1;
        }
        r
    }

    /// Puts `class_calendar` in place of the calendar when it gives every class the
    /// same number of sessions as the current one; fails, changing nothing, otherwise.
    pub fn replace_class_calendar(&mut self, class_calendar: ClassCalendar) -> (r: Result<
        (),
        ClassHourCountNotMatchingError,
    >)
        requires
            old(self).wf(),
            class_calendar.wf(),
        ensures
            final(self).wf(),
            r is Ok <==> (class_calendar.num_classes() == old(self).calendar().num_classes()
                && forall|k: int|
                0 <= k < class_calendar.num_classes() ==> #[trigger] class_total(class_calendar, k)
                    == class_total(old(self).calendar(), k)),
            r is Ok ==> final(self).calendar() == class_calendar,
            r is Err ==> *final(self) == *old(self),
            final(self).constraints() == old(self).constraints(),
            final(self).professor_meta() == old(self).professor_meta(),
            final(self).class_meta() == old(self).class_meta(),
            final(self).classroom_assignments() == old(self).classroom_assignments(),
    {
        let current = Self::count_class_hours(&self.class_calendar);
        let proposed = Self::count_class_hours(&class_calendar);
        if current.len() != proposed.len() {
            return Err(ClassHourCountNotMatchingError {});
        }
        let mut k: usize = 0;
        while k < current.len()
            invariant
                old(self).wf(),
                class_calendar.wf(),
                *self == *old(self),
                current@.len() == self.class_calendar.num_classes(),
                forall|j: int| 0 <= j < current@.len() ==> #[trigger] current@[j] == class_total(self.class_calendar, j),
                proposed@.len() == class_calendar.num_classes(),
                forall|j: int| 0 <= j < proposed@.len() ==> #[trigger] proposed@[j] == class_total(class_calendar, j),
                current@.len() == proposed@.len(),
                k <= current@.len(),
                forall|j: int| 0 <= j < k ==> #[trigger] current@[j] == proposed@[j],
            decreases current@.len() - k,
        {
            if current[k] != proposed[k] {
                return Err(ClassHourCountNotMatchingError {});
            }
            k = k + 1;
        }
        proof {
            assert forall|j: int| 0 <= j < class_calendar.num_classes() implies #[trigger] class_total(
                class_calendar,
                j,
            ) == class_total(old(self).calendar(), j) by {
                assert(current@[j] == proposed@[j]);
            }
        }
        self.class_calendar = class_calendar;
        Ok(())
    }

    /// Whether the session `class_entry` passes `class_filter`: any session, no
    /// session, those of a professor or those of a semester; a session of a class that
    /// does not exist passes neither of the last two. The filter must not be by room.
    pub fn filter_class(&self, class_entry: &SingleClassEntry, class_filter: &ClassFilter) -> (r: bool)
        requires
            !(class_filter is Classroom),
        ensures
            r == match *class_filter {
                ClassFilter::Professor(p) => class_entry.class_key.0 < self.constraints().classes@.len() && p
                    == self.constraints().classes@[class_entry.class_key.0 as int].professor_key,
                ClassFilter::Semester(s) => class_entry.class_key.0 < self.constraints().classes@.len() && s
                    == self.constraints().classes@[class_entry.class_key.0 as int].semester,
                ClassFilter::Any => true,
                _ => false,
            },
            r == passes(self.constraints().classes@, *class_entry, *class_filter),
    {
        match class_filter {
            ClassFilter::Professor(professor_key) => {
                match self.simulation_constraints.get_class(class_entry.class_key) {
                    Some(class) => professor_key.0 == class.professor_key.0,
                    None => false,
                }
            },
            ClassFilter::Semester(semester) => {
                match self.simulation_constraints.get_class(class_entry.class_key) {
                    Some(class) => semester.to_u32() == class.semester.to_u32(),
                    None => false,
                }
            },
            ClassFilter::Any => true,
            _ => false,
        }
    }

    /// Sets the weekly hours of class `class_key`, adding sessions on Monday at 08:00
    /// or removing the first listed ones until the calendar holds as many sessions of
    /// the class as its hours.
    fn set_class_hours(&mut self, class_key: ClassKey, class_hours: u8)
        requires
            old(self).wf(),
            class_key.0 < old(self).constraints().classes@.len(),
        ensures
            final(self).wf(),
            final(self).constraints().classes@ == old(self).constraints().classes@.update(
                class_key.0 as int,
                with_hours(old(self).constraints().classes@[class_key.0 as int], class_hours),
            ),
            final(self).constraints().professors@ == old(self).constraints().professors@,
            final(self).professor_meta() == old(self).professor_meta(),
            final(self).class_meta() == old(self).class_meta(),
            final(self).calendar().num_classes() == old(self).calendar().num_classes(),
            forall|j: int|
                0 <= j < old(self).calendar().num_classes() && j != class_key.0 ==> #[trigger] final(self).calendar().counts()[j] == old(self).calendar().counts()[j],
            class_hours >= old(self).constraints().classes@[class_key.0 as int].class_hours ==> final(self).calendar().counts()[class_key.0 as int] == old(self).calendar().counts()[class_key.0 as int].update(
                cell_index(0, 0),
                (old(self).calendar().counts()[class_key.0 as int][cell_index(0, 0)] + class_hours
                    - old(self).constraints().classes@[class_key.0 as int].class_hours) as u8,
            ),
    {
        let k = class_key.0;
        let ghost kk = k as int;
        let ghost old_counts = self.class_calendar.counts();
        let class = self.simulation_constraints.classes[k];
        let current = class.class_hours;
        let mut calendar = ClassCalendar::new();
        std::mem::swap(&mut calendar, &mut self.class_calendar);
        proof {
            calendar.lemma_wf();
            assert(class_total(calendar, kk) == current);
        }
        if class_hours > current {
            let delta = class_hours - current;
            let day0 = Day::from_index(0);
            let timeslot0 = Timeslot::from_index(0);
            proof {
                lemma_cell_le_week_hours(old_counts[kk], 0, 0);
            }
            let mut i: u8 = 0;
            while i < delta
                invariant
                    calendar.wf(),
                    calendar.num_classes() == old_counts.len(),
                    k == class_key.0,
                    k < old_counts.len(),
                    kk == k,
                    old_counts[kk].len() == DATA_LEN,
                    day0.index() == 0,
                    timeslot0.index() == 0,
                    current + delta == class_hours,
                    old_counts[kk][cell_index(0, 0)] <= current,
                    i <= delta,
                    forall|j: int|
                        0 <= j < old_counts.len() && j != kk ==> #[trigger] calendar.counts()[j] == old_counts[j],
                    calendar.counts()[kk] == old_counts[kk].update(
                        cell_index(0, 0),
                        (old_counts[kk][cell_index(0, 0)] + i) as u8,
                    ),
                decreases delta - i,
            {
                let ghost before = calendar.counts();
                proof {
                    lemma_cell_index_bijective(0, 0, 0, 0);
                    calendar.lemma_wf();
                }
                let r = calendar.add_one_class(day0, timeslot0, class_key);
                proof {
                    assert(before[kk][cell_index(0, 0)] == old_counts[kk][cell_index(0, 0)] + i);
                    assert(calendar.counts()[kk] =~= old_counts[kk].update(
                        cell_index(0, 0),
                        (old_counts[kk][cell_index(0, 0)] + i + 1) as u8,
                    ));
                }
                i = i + 1;
            }
            proof {
                lemma_week_hours_update(
                    old_counts[kk],
                    0,
                    0,
                    (old_counts[kk][cell_index(0, 0)] + delta) as u8,
                );
            }
        } else if class_hours < current {
            let delta = current - class_hours;
            let mut i: u8 = 0;
            while i < delta
                invariant
                    calendar.wf(),
                    calendar.num_classes() == old_counts.len(),
                    k == class_key.0,
                    k < old_counts.len(),
                    kk == k,
                    class_hours + delta == current,
                    i <= delta,
                    forall|j: int|
                        0 <= j < old_counts.len() && j != kk ==> #[trigger] calendar.counts()[j] == old_counts[j],
                    class_total(calendar, kk) == current - i,
                decreases delta - i,
            {
                let ghost before = calendar;
                proof {
                    before.lemma_wf();
                    lemma_week_hours_positive(before.counts()[kk]);
                    let (d, t) = choose|d: int, t: int|
                        0 <= d < DAY_COUNT && 0 <= t < TIMESLOT_COUNT && #[trigger] before.counts()[kk][cell_index(
                            d,
                            t,
                        )] > 0;
                    lemma_cell_index_bijective(d, t, d, t);
                    broadcast use vstd::seq_lib::group_to_multiset_ensures;

                    let slots = crate::class_calendar::entry_slots(before.entries());
                    assert(slots.to_multiset().count((kk, cell_index(d, t))) > 0);
                    assert(slots.contains((kk, cell_index(d, t))));
                    let x = choose|x: int| 0 <= x < slots.len() && slots[x] == (kk, cell_index(d, t));
                    assert(slots[x] == crate::class_calendar::entry_slot(before.entries()[x]));
                    assert(before.entries()[x].class_key == class_key);
                }
                let r = calendar.remove_one_class_anywhere(class_key);
                proof {
                    let x = choose|x: int|
                        0 <= x < before.entries().len() && (#[trigger] before.entries()[x]).class_key
                            == class_key && forall|y: int|
                            0 <= y < x ==> (#[trigger] before.entries()[y]).class_key != class_key;
                    let e = before.entries()[x];
                    lemma_week_hours_update(
                        before.counts()[kk],
                        e.day.index() as int,
                        e.timeslot.index() as int,
                        (before.counts()[kk][cell_index(e.day.index() as int, e.timeslot.index() as int)]
                            - 1) as u8,
                    );
                }
                i = i + 1;
            }
        }
        self.class_calendar = calendar;
        let updated = Class { class_hours, ..class };
        self.simulation_constraints.classes.set(k, updated);
        proof {
            assert forall|j: int| 0 <= j < self.simulation_constraints.classes@.len() implies #[trigger] class_total(
                self.class_calendar,
                j,
            ) == self.simulation_constraints.classes@[j].class_hours by {
                if j != kk {
                    assert(self.class_calendar.counts()[j] == old_counts[j]);
                    assert(class_total(old(self).class_calendar, j) == old(self).simulation_constraints.classes@[j].class_hours);
                }
            }
        }
    }

    /// A handle to edit class `class_key`; there always is one, and editing needs the
    /// class to exist.
    pub fn get_class_entry(&mut self, class_key: ClassKey) -> (r: Option<ClassEntry<'_>>)
        ensures
            r is Some,
            r matches Some(e) ==> *e.school_schedule == *old(self) && e.class_key == class_key && *final(self)
                == *final(e.school_schedule),
    {
        Some(ClassEntry { school_schedule: self, class_key })
    }

    /// How class `class_key` is shown, to be edited, when there is such a class.
    pub fn get_class_metadata_mut(&mut self, class_key: ClassKey) -> (r: Option<&mut ClassMetadata>)
        ensures
            r is Some <==> class_key.0 < old(self).class_meta().len(),
            r matches Some(m) ==> *m == old(self).class_meta()[class_key.0 as int]
                && final(self).class_meta() == old(self).class_meta().update(class_key.0 as int, *final(m))
                && final(self).professor_meta() == old(self).professor_meta()
                && final(self).constraints() == old(self).constraints()
                && final(self).calendar() == old(self).calendar(),
            r is None ==> *final(self) == *old(self),
    {
        if class_key.0 < self.class_metadata.len() {
            Some(&mut self.class_metadata[class_key.0])
        } else {
            None
        }
    }

    /// How professor `professor_key` is shown, to be edited, when there is such a
    /// professor.
    pub fn get_professor_metadata_mut(&mut self, professor_key: ProfessorKey) -> (r: Option<
        &mut ProfessorMetadata,
    >)
        ensures
            r is Some <==> professor_key.0 < old(self).professor_meta().len(),
            r matches Some(m) ==> *m == old(self).professor_meta()[professor_key.0 as int]
                && final(self).professor_meta() == old(self).professor_meta().update(
                professor_key.0 as int,
                *final(m),
            ) && final(self).class_meta() == old(self).class_meta() && final(self).constraints()
                == old(self).constraints() && final(self).calendar() == old(self).calendar(),
            r is None ==> *final(self) == *old(self),
    {
        if professor_key.0 < self.professor_metadata.len() {
            Some(&mut self.professor_metadata[professor_key.0])
        } else {
            None
        }
    }

    /// Professor `professor_key`, to be edited, when there is such a professor.
    pub fn get_professor_mut(&mut self, professor_key: ProfessorKey) -> (r: Option<&mut Professor>)
        requires
            old(self).wf(),
        ensures
            r is Some <==> professor_key.0 < old(self).constraints().professors@.len(),
            r matches Some(p) ==> *p == old(self).constraints().professors@[professor_key.0 as int]
                && final(self).constraints().professors@ == old(self).constraints().professors@.update(
                professor_key.0 as int,
                *final(p),
            ) && final(self).constraints().classes@ == old(self).constraints().classes@
                && final(self).class_meta() == old(self).class_meta() && final(self).professor_meta()
                == old(self).professor_meta() && final(self).calendar() == old(self).calendar(),
            r is None ==> *final(self) == *old(self),
            final(self).wf(),
    {
        if professor_key.0 < self.simulation_constraints.professors.len() {
            Some(&mut self.simulation_constraints.professors[professor_key.0])
        } else {
            None
        }
    }

    /// The sessions that pass `class_filter`, in the order of the list of sessions,
    /// gathered into runs of consecutive timeslots of one class on one day: each
    /// session continues the first run it extends, or starts its own.
    pub fn class_ranges(&self, class_filter: &ClassFilter) -> (r: Vec<ClassRange>)
        requires
            self.wf(),
            !(class_filter is Classroom),
        ensures
            r@ == merge_entries(self.calendar().entries(), self.constraints().classes@, *class_filter),
    {
        let entries = self.class_calendar.get_entries();
        let ghost es = entries@;
        let ghost classes = self.simulation_constraints.classes@;
        proof {
            self.class_calendar.lemma_wf();
        }
        let mut ranges: Vec<ClassRange> = Vec::new();
        let mut i: usize = 0;
        while i < entries.len()
            invariant
                self.wf(),
                !(class_filter is Classroom),
                es == entries@,
                es == self.calendar().entries(),
                classes == self.constraints().classes@,
                forall|x: int| 0 <= x < es.len() ==> (#[trigger] es[x]).class_key.0 < classes.len(),
                i <= es.len(),
                ranges@ == merge_entries(es.subrange(0, i as int), classes, *class_filter),
            decreases es.len() - i,
        {
            let e = entries[i];
            proof {
                assert(es.subrange(0, i + 1).drop_last() =~= es.subrange(0, i as int));
                assert(es.subrange(0, i + 1).last() == e);
            }
            if self.filter_class(&e, class_filter) {
                let mut j: usize = 0;
                let mut found = false;
                while j < ranges.len() && !found
                    invariant
                        j <= ranges@.len(),
                        found ==> j < ranges@.len() && extends(ranges@[j as int], e),
                        forall|x: int| 0 <= x < j ==> !extends(#[trigger] ranges@[x], e),
                    decreases ranges@.len() - j + if found { 0int } else { 1int },
                {
                    let r = ranges[j];
                    if r.class_key.0 == e.class_key.0 && r.day.to_usize() == e.day.to_usize()
                        && r.end_timeslot.to_usize() + 1 == e.timeslot.to_usize() {
                        proof {
                            Day::lemma_index_injective(r.day, e.day);
                        }
                        found = true;
                    } else {
                        proof {
                            if extends(r, e) {
                                assert(r.day.index() == e.day.index());
                            }
                        }
                        j = j + 1;
                    }
                }
                let ghost prev = ranges@;
                if found {
                    let r = ranges[j];
                    ranges.set(j, ClassRange { end_timeslot: e.timeslot, ..r });
                    proof {
                        assert(extends(prev[j as int], e));
                        let c = choose|c: int|
                            0 <= c < prev.len() && extends(#[trigger] prev[c], e) && forall|x: int|
                                0 <= x < c ==> !extends(#[trigger] prev[x], e);
                        if c < j {
                            assert(!extends(prev[c], e));
                        } else if c > j {
                            assert(!extends(prev[j as int], e));
                        }
                    }
                } else {
                    ranges.push(
                        ClassRange {
                            class_key: e.class_key,
                            day: e.day,
                            start_timeslot: e.timeslot,
                            end_timeslot: e.timeslot,
                        },
                    );
                }
            }
            i = i + 1;
        }
        proof {
            assert(es.subrange(0, es.len() as int) =~= es);
        }
        ranges
    }

    /// The calendar of sessions.
    pub fn class_calendar(&self) -> (r: &ClassCalendar)
        ensures
            *r == self.calendar(),
    {
        &self.class_calendar
    }
}

impl Default for SchoolSchedule {
    fn default() -> (r: SchoolSchedule)
        ensures
            r.wf(),
            r.constraints().classes@.len() == 0,
            r.constraints().professors@.len() == 0,
            r.calendar().entries().len() == 0,
    {
        SchoolSchedule::new()
    }
}

/// A handle through which one class of a schedule is edited.
#[derive(Debug)]
pub struct ClassEntry<'a> {
    pub school_schedule: &'a mut SchoolSchedule,
    pub class_key: ClassKey,
}

impl<'a> ClassEntry<'a> {
    /// Sets the weekly hours of the class: sessions are added on Monday at 08:00, or
    /// the first listed ones removed, until the calendar holds as many sessions of the
    /// class as its hours.
    pub fn set_hours(&mut self, class_hours: u8)
        requires
            old(self).school_schedule.wf(),
            old(self).class_key.0 < old(self).school_schedule.constraints().classes@.len(),
        ensures
            final(self).class_key == old(self).class_key,
            *final(final(self).school_schedule) == *final(old(self).school_schedule),
            final(self).school_schedule.wf(),
            final(self).school_schedule.constraints().classes@ == old(self).school_schedule.constraints().classes@.update(
                old(self).class_key.0 as int,
                with_hours(
                    old(self).school_schedule.constraints().classes@[old(self).class_key.0 as int],
                    class_hours,
                ),
            ),
            final(self).school_schedule.constraints().professors@ == old(self).school_schedule.constraints().professors@,
            final(self).school_schedule.professor_meta() == old(self).school_schedule.professor_meta(),
            final(self).school_schedule.class_meta() == old(self).school_schedule.class_meta(),
            final(self).school_schedule.calendar().num_classes() == old(self).school_schedule.calendar().num_classes(),
            forall|j: int|
                0 <= j < old(self).school_schedule.calendar().num_classes() && j != old(self).class_key.0
                    ==> #[trigger] final(self).school_schedule.calendar().counts()[j] == old(self).school_schedule.calendar().counts()[j],
            class_hours >= old(self).school_schedule.constraints().classes@[old(self).class_key.0 as int].class_hours
                ==> final(self).school_schedule.calendar().counts()[old(self).class_key.0 as int] == old(self).school_schedule.calendar().counts()[old(self).class_key.0 as int].update(
                cell_index(0, 0),
                (old(self).school_schedule.calendar().counts()[old(self).class_key.0 as int][cell_index(0, 0)]
                    + class_hours - old(self).school_schedule.constraints().classes@[old(self).class_key.0 as int].class_hours) as u8,
            ),
    {
        self.school_schedule.set_class_hours(self.class_key, class_hours);
    }

    /// Sets the professor of the class.
    pub fn set_professor_id(&mut self, professor_key: ProfessorKey)
        requires
            old(self).school_schedule.wf(),
            old(self).class_key.0 < old(self).school_schedule.constraints().classes@.len(),
        ensures
            final(self).class_key == old(self).class_key,
            *final(final(self).school_schedule) == *final(old(self).school_schedule),
            final(self).school_schedule.wf(),
            SchoolSchedule::class_replaced(
                *old(self).school_schedule,
                *final(self).school_schedule,
                old(self).class_key.0 as int,
                Class {
                    professor_key,
                    ..old(self).school_schedule.constraints().classes@[old(self).class_key.0 as int]
                },
            ),
    {
        let k = self.class_key.0;
        let class = self.school_schedule.simulation_constraints.classes[k];
        self.school_schedule.simulation_constraints.classes.set(k, Class { professor_key, ..class });
        proof {
            assert forall|j: int|
                0 <= j < self.school_schedule.simulation_constraints.classes@.len() implies #[trigger] class_total(
                self.school_schedule.class_calendar,
                j,
            ) == self.school_schedule.simulation_constraints.classes@[j].class_hours by {
                assert(class_total(old(self).school_schedule.class_calendar, j) == old(self).school_schedule.simulation_constraints.classes@[j].class_hours);
            }
        }
    }

    /// Sets the group of the class.
    pub fn set_group(&mut self, group: Group)
        requires
            old(self).school_schedule.wf(),
            old(self).class_key.0 < old(self).school_schedule.constraints().classes@.len(),
        ensures
            final(self).class_key == old(self).class_key,
            *final(final(self).school_schedule) == *final(old(self).school_schedule),
            final(self).school_schedule.wf(),
            SchoolSchedule::class_replaced(
                *old(self).school_schedule,
                *final(self).school_schedule,
                old(self).class_key.0 as int,
                Class { group, ..old(self).school_schedule.constraints().classes@[old(self).class_key.0 as int] },
            ),
    {
        let k = self.class_key.0;
        let class = self.school_schedule.simulation_constraints.classes[k];
        self.school_schedule.simulation_constraints.classes.set(k, Class { group, ..class });
        proof {
            assert forall|j: int|
                0 <= j < self.school_schedule.simulation_constraints.classes@.len() implies #[trigger] class_total(
                self.school_schedule.class_calendar,
                j,
            ) == self.school_schedule.simulation_constraints.classes@[j].class_hours by {
                assert(class_total(old(self).school_schedule.class_calendar, j) == old(self).school_schedule.simulation_constraints.classes@[j].class_hours);
            }
        }
    }

    /// Sets the semester of the class.
    pub fn set_semester(&mut self, semester: Semester)
        requires
            old(self).school_schedule.wf(),
            old(self).class_key.0 < old(self).school_schedule.constraints().classes@.len(),
        ensures
            final(self).class_key == old(self).class_key,
            *final(final(self).school_schedule) == *final(old(self).school_schedule),
            final(self).school_schedule.wf(),
            SchoolSchedule::class_replaced(
                *old(self).school_schedule,
                *final(self).school_schedule,
                old(self).class_key.0 as int,
                Class { semester, ..old(self).school_schedule.constraints().classes@[old(self).class_key.0 as int] },
            ),
    {
        let k = self.class_key.0;
        let class = self.school_schedule.simulation_constraints.classes[k];
        self.school_schedule.simulation_constraints.classes.set(k, Class { semester, ..class });
        proof {
            assert forall|j: int|
                0 <= j < self.school_schedule.simulation_constraints.classes@.len() implies #[trigger] class_total(
                self.school_schedule.class_calendar,
                j,
            ) == self.school_schedule.simulation_constraints.classes@[j].class_hours by {
                assert(class_total(old(self).school_schedule.class_calendar, j) == old(self).school_schedule.simulation_constraints.classes@[j].class_hours);
            }
        }
    }

    /// Sets the classroom types the class may be taught in.
    pub fn set_allowed_classroom_types(&mut self, allowed_classroom_types: AllowedClassroomTypes)
        requires
            old(self).school_schedule.wf(),
            old(self).class_key.0 < old(self).school_schedule.constraints().classes@.len(),
        ensures
            final(self).class_key == old(self).class_key,
            *final(final(self).school_schedule) == *final(old(self).school_schedule),
            final(self).school_schedule.wf(),
            SchoolSchedule::class_replaced(
                *old(self).school_schedule,
                *final(self).school_schedule,
                old(self).class_key.0 as int,
                Class {
                    allowed_classroom_types,
                    ..old(self).school_schedule.constraints().classes@[old(self).class_key.0 as int]
                },
            ),
    {
        let k = self.class_key.0;
        let class = self.school_schedule.simulation_constraints.classes[k];
        self.school_schedule.simulation_constraints.classes.set(k, Class { allowed_classroom_types, ..class });
        proof {
            assert forall|j: int|
                0 <= j < self.school_schedule.simulation_constraints.classes@.len() implies #[trigger] class_total(
                self.school_schedule.class_calendar,
                j,
            ) == self.school_schedule.simulation_constraints.classes@[j].class_hours by {
                assert(class_total(old(self).school_schedule.class_calendar, j) == old(self).school_schedule.simulation_constraints.classes@[j].class_hours);
            }
        }
    }

    /// Sets whether the class is optative.
    pub fn set_optative(&mut self, optative: bool)
        requires
            old(self).school_schedule.wf(),
            old(self).class_key.0 < old(self).school_schedule.constraints().classes@.len(),
        ensures
            final(self).class_key == old(self).class_key,
            *final(final(self).school_schedule) == *final(old(self).school_schedule),
            final(self).school_schedule.wf(),
            SchoolSchedule::class_replaced(
                *old(self).school_schedule,
                *final(self).school_schedule,
                old(self).class_key.0 as int,
                Class { optative, ..old(self).school_schedule.constraints().classes@[old(self).class_key.0 as int] },
            ),
    {
        let k = self.class_key.0;
        let class = self.school_schedule.simulation_constraints.classes[k];
        self.school_schedule.simulation_constraints.classes.set(k, Class { optative, ..class });
        proof {
            assert forall|j: int|
                0 <= j < self.school_schedule.simulation_constraints.classes@.len() implies #[trigger] class_total(
                self.school_schedule.class_calendar,
                j,
            ) == self.school_schedule.simulation_constraints.classes@[j].class_hours by {
                assert(class_total(old(self).school_schedule.class_calendar, j) == old(self).school_schedule.simulation_constraints.classes@[j].class_hours);
            }
        }
    }
}

} // verus!
