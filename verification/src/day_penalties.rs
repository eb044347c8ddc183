//! Penalties read from the shape of each class's days: sessions that are too short or
//! too long, days broken by free timeslots, sessions a professor would rather not
//! teach, classes that move between timeslots or spread laboratories over days.
use vstd::prelude::*;

use crate::class_calendar::ClassCalendar;
use crate::constraints::{
    all_semesters, semester_number, Availability, ClassKey, ClassroomType, OptimizationConstraints,
    Semester, SEMESTER_COUNT,
};
use crate::heuristics::{classes_known, professors_known};
use crate::rows::{count_holes, count_runs_outside, has_gap, holes, row_has_gap, runs_outside};
use crate::sums::{count_to, lemma_count_nonneg, lemma_count_step, lemma_sum_nonneg, lemma_sum_zero, lemma_term_le_sum, sum_to};
use crate::week_calendar::{Day, Timeslot, DAY_COUNT, TIMESLOT_COUNT};

verus! {

/// For each timeslot of day `d`, whether class `k` has a session there.
pub open spec fn presence(state: ClassCalendar, k: int, d: int) -> Seq<bool> {
    Seq::new(TIMESLOT_COUNT as nat, |t: int| state.count(k, d, t) > 0)
}

/// The occupied timeslots of class `class_key` on `day`.
fn presence_row(state: &ClassCalendar, class_key: ClassKey, day: Day) -> (r: Vec<bool>)
    requires
        state.wf(),
        class_key.0 < state.num_classes(),
    ensures
        r@ == presence(*state, class_key.0 as int, day.index() as int),
{
    let timeslots = Timeslot::all();
    let mut r: Vec<bool> = Vec::new();
    let mut i: usize = 0;
    while i < TIMESLOT_COUNT
        invariant
            state.wf(),
            class_key.0 < state.num_classes(),
            timeslots@.len() == TIMESLOT_COUNT,
            forall|j: int| 0 <= j < TIMESLOT_COUNT ==> #[trigger] timeslots@[j].index() == j,
            i <= TIMESLOT_COUNT,
            r@.len() == i,
            forall|j: int|
                0 <= j < i ==> #[trigger] r@[j] == (state.count(
                    class_key.0 as int,
                    day.index() as int,
                    j,
                ) > 0),
        decreases TIMESLOT_COUNT - i,
    {
        let c = state.get_count(day, timeslots[i], class_key);
        r.push(c > 0);
        i = i + 1;
    }
    assert(r@ =~= presence(*state, class_key.0 as int, day.index() as int));
    r
}

/// Runs of class `k` over the week whose length lies outside `min..=max`.
pub open spec fn class_session_faults(state: ClassCalendar, k: int, min: int, max: int) -> int {
    sum_to(DAY_COUNT as int, |d: int| runs_outside(presence(state, k, d), min, max))
}

/// Over all classes and days, the sessions (runs of consecutive occupied timeslots)
/// whose length lies outside `min..=max`.
pub open spec fn session_length_penalty(state: ClassCalendar, min: int, max: int) -> int {
    sum_to(state.num_classes() as int, |k: int| class_session_faults(state, k, min, max))
}

/// Counts the sessions, over all classes and days, that last fewer than
/// `min_session_length` or more than `max_session_length` consecutive timeslots.
pub fn count_outside_session_length(
    state: &ClassCalendar,
    min_session_length: u8,
    max_session_length: u8,
) -> (r: u64)
    requires
        state.wf(),
        session_length_penalty(*state, min_session_length as int, max_session_length as int)
            <= u64::MAX,
    ensures
        r == session_length_penalty(*state, min_session_length as int, max_session_length as int),
{
    let n = state.class_count();
    let days = Day::all();
    let ghost min = min_session_length as int;
    let ghost max = max_session_length as int;
    let ghost f = |k: int| class_session_faults(*state, k, min, max);
    let mut total: u128 = 0;
    let mut k: usize = 0;
    while k < n
        invariant
            state.wf(),
            n == state.num_classes(),
            k <= n,
            days@.len() == DAY_COUNT,
            forall|i: int| 0 <= i < DAY_COUNT ==> #[trigger] days@[i].index() == i,
            min == min_session_length,
            max == max_session_length,
            f == (|k2: int| class_session_faults(*state, k2, min, max)),
            total == sum_to(k as int, f),
            total <= 60 * k,
        decreases n - k,
    {
        let ghost g = |d: int| runs_outside(presence(*state, k as int, d), min, max);
        let mut class_total: u128 = 0;
        let mut di: usize = 0;
        while di < DAY_COUNT
            invariant
                state.wf(),
                k < n,
                n == state.num_classes(),
                days@.len() == DAY_COUNT,
                forall|i: int| 0 <= i < DAY_COUNT ==> #[trigger] days@[i].index() == i,
                min == min_session_length,
                max == max_session_length,
                di <= DAY_COUNT,
                g == (|d: int| runs_outside(presence(*state, k as int, d), min, max)),
                class_total == sum_to(di as int, g),
                class_total <= 12 * di,
            decreases DAY_COUNT - di,
        {
            let row = presence_row(state, ClassKey(k), days[di]);
            let c = count_runs_outside(&row, min_session_length, max_session_length);
            assert(sum_to(di + 1, g) == sum_to(di as int, g) + g(di as int));
            class_total = class_total + c as u128;
            di = di + 1;
        }
        assert(g =~= (|d: int| runs_outside(presence(*state, k as int, d), min, max)));
        assert(class_total == f(k as int));
        assert(sum_to(k + 1, f) == sum_to(k as int, f) + f(k as int));
        total = total + class_total;
        k = k + 1;
    }
    assert(f =~= (|k2: int| class_session_faults(*state, k2, min, max)));
    total as u64
}

/// Over all classes, the days on which the class's sessions do not form one block.
pub open spec fn gap_penalty(state: ClassCalendar) -> int {
    sum_to(
        state.num_classes() as int,
        |k: int| count_to(DAY_COUNT as int, |d: int| has_gap(presence(state, k, d))),
    )
}

/// Counts the (class, day) pairs whose sessions that day are broken by a free timeslot.
pub fn count_incontinuous_classes(state: &ClassCalendar) -> (r: u64)
    requires
        state.wf(),
        gap_penalty(*state) <= u64::MAX,
    ensures
        r == gap_penalty(*state),
{
    let n = state.class_count();
    let days = Day::all();
    let ghost f = |k: int| count_to(DAY_COUNT as int, |d: int| has_gap(presence(*state, k, d)));
    let mut total: u128 = 0;
    let mut k: usize = 0;
    while k < n
        invariant
            state.wf(),
            n == state.num_classes(),
            k <= n,
            days@.len() == DAY_COUNT,
            forall|i: int| 0 <= i < DAY_COUNT ==> #[trigger] days@[i].index() == i,
            f == (|k2: int| count_to(DAY_COUNT as int, |d: int| has_gap(presence(*state, k2, d)))),
            total == sum_to(k as int, f),
            total <= 5 * k,
        decreases n - k,
    {
        let ghost g = |d: int| has_gap(presence(*state, k as int, d));
        let mut class_total: u128 = 0;
        let mut di: usize = 0;
        while di < DAY_COUNT
            invariant
                state.wf(),
                k < n,
                n == state.num_classes(),
                days@.len() == DAY_COUNT,
                forall|i: int| 0 <= i < DAY_COUNT ==> #[trigger] days@[i].index() == i,
                di <= DAY_COUNT,
                g == (|d: int| has_gap(presence(*state, k as int, d))),
                class_total == count_to(di as int, g),
                class_total <= di,
            decreases DAY_COUNT - di,
        {
            let row = presence_row(state, ClassKey(k), days[di]);
            let gap = row_has_gap(&row);
            proof {
                lemma_count_step(di as int, g);
            }
            if gap {
                class_total = class_total + 1;
            }
            di = di + 1;
        }
        assert(g =~= (|d: int| has_gap(presence(*state, k as int, d))));
        assert(class_total == f(k as int));
        assert(sum_to(k + 1, f) == sum_to(k as int, f) + f(k as int));
        total = total + class_total;
        k = k + 1;
    }
    assert(f =~= (|k2: int| count_to(DAY_COUNT as int, |d: int| has_gap(presence(*state, k2, d)))));
    total as u64
}


/// The availability of the professor of class `k` in (`d`, `t`).
pub open spec fn availability_at(constraints: OptimizationConstraints, k: int, d: int, t: int) -> Availability {
    constraints.professors@[constraints.classes@[k].professor_key.0 as int].availability.at(d, t)
}

/// Over all classes and cells of the week, the cells where the class has a session and
/// its professor's availability there is `a`.
pub open spec fn availability_penalty(
    state: ClassCalendar,
    constraints: OptimizationConstraints,
    a: Availability,
) -> int {
    sum_to(
        state.num_classes() as int,
        |k: int|
            sum_to(
                DAY_COUNT as int,
                |d: int|
                    count_to(
                        TIMESLOT_COUNT as int,
                        |t: int| state.count(k, d, t) > 0 && availability_at(constraints, k, d, t) == a,
                    ),
            ),
    )
}

/// `true` when the two availabilities are the same.
fn same_availability(x: Availability, y: Availability) -> (r: bool)
    ensures
        r == (x == y),
{
    match (x, y) {
        (Availability::Available, Availability::Available) => true,
        (Availability::AvailableIfNeeded, Availability::AvailableIfNeeded) => true,
        (Availability::NotAvailable, Availability::NotAvailable) => true,
        _ => false,
    }
}

/// Number of cells of day `day` where class `k` has a session and its professor's
/// availability is `a`.
fn availability_cells(
    state: &ClassCalendar,
    constraints: &OptimizationConstraints,
    k: usize,
    day: Day,
    a: Availability,
) -> (r: u128)
    requires
        professors_known(*state, *constraints),
        k < state.num_classes(),
    ensures
        r == count_to(
            TIMESLOT_COUNT as int,
            |t: int|
                state.count(k as int, day.index() as int, t) > 0 && availability_at(
                    *constraints,
                    k as int,
                    day.index() as int,
                    t,
                ) == a,
        ),
        r <= TIMESLOT_COUNT,
{
    let timeslots = Timeslot::all();
    let ghost d = day.index() as int;
    let ghost p = |t: int| state.count(k as int, d, t) > 0 && availability_at(*constraints, k as int, d, t) == a;
    let professor = &constraints.professors[constraints.classes[k].professor_key.0];
    let mut count: u128 = 0;
    let mut ti: usize = 0;
    while ti < TIMESLOT_COUNT
        invariant
            professors_known(*state, *constraints),
            k < state.num_classes(),
            timeslots@.len() == TIMESLOT_COUNT,
            forall|j: int| 0 <= j < TIMESLOT_COUNT ==> #[trigger] timeslots@[j].index() == j,
            d == day.index(),
            *professor == constraints.professors@[constraints.classes@[k as int].professor_key.0 as int],
            p == (|t: int| state.count(k as int, d, t) > 0 && availability_at(*constraints, k as int, d, t) == a),
            ti <= TIMESLOT_COUNT,
            count == count_to(ti as int, p),
            count <= ti,
        decreases TIMESLOT_COUNT - ti,
    {
        let c = state.get_count(day, timeslots[ti], ClassKey(k));
        let av = *professor.availability.get(day, timeslots[ti]);
        proof {
            lemma_count_step(ti as int, p);
        }
        if c > 0 && same_availability(av, a) {
            count = count + 1;
        }
        ti = ti + 1;
    }
    assert(p =~= (|t: int| state.count(k as int, d, t) > 0 && availability_at(*constraints, k as int, d, t) == a));
    count
}

/// Number of sessions, over all classes and cells, placed where the class's professor
/// has availability `a`.
fn count_with_availability(
    state: &ClassCalendar,
    constraints: &OptimizationConstraints,
    a: Availability,
) -> (r: u128)
    requires
        professors_known(*state, *constraints),
    ensures
        r == availability_penalty(*state, *constraints, a),
        r <= 60 * state.num_classes(),
{
    let n = state.class_count();
    let days = Day::all();
    let ghost f = |k: int|
        sum_to(
            DAY_COUNT as int,
            |d: int|
                count_to(
                    TIMESLOT_COUNT as int,
                    |t: int| state.count(k, d, t) > 0 && availability_at(*constraints, k, d, t) == a,
                ),
        );
    let mut total: u128 = 0;
    let mut k: usize = 0;
    while k < n
        invariant
            professors_known(*state, *constraints),
            n == state.num_classes(),
            k <= n,
            days@.len() == DAY_COUNT,
            forall|i: int| 0 <= i < DAY_COUNT ==> #[trigger] days@[i].index() == i,
            f == (|k2: int|
                sum_to(
                    DAY_COUNT as int,
                    |d: int|
                        count_to(
                            TIMESLOT_COUNT as int,
                            |t: int| state.count(k2, d, t) > 0 && availability_at(*constraints, k2, d, t) == a,
                        ),
                )),
            total == sum_to(k as int, f),
            total <= 60 * k,
        decreases n - k,
    {
        let ghost g = |d: int|
            count_to(
                TIMESLOT_COUNT as int,
                |t: int| state.count(k as int, d, t) > 0 && availability_at(*constraints, k as int, d, t) == a,
            );
        let mut class_total: u128 = 0;
        let mut di: usize = 0;
        while di < DAY_COUNT
            invariant
                professors_known(*state, *constraints),
                k < n,
                n == state.num_classes(),
                days@.len() == DAY_COUNT,
                forall|i: int| 0 <= i < DAY_COUNT ==> #[trigger] days@[i].index() == i,
                di <= DAY_COUNT,
                g == (|d: int|
                    count_to(
                        TIMESLOT_COUNT as int,
                        |t: int| state.count(k as int, d, t) > 0 && availability_at(*constraints, k as int, d, t) == a,
                    )),
                class_total == sum_to(di as int, g),
                class_total <= 12 * di,
            decreases DAY_COUNT - di,
        {
            let c = availability_cells(state, constraints, k, days[di], a);
            assert(sum_to(di + 1, g) == sum_to(di as int, g) + g(di as int));
            class_total = class_total + c;
            di = di + 1;
        }
        assert(g =~= (|d: int|
            count_to(
                TIMESLOT_COUNT as int,
                |t: int| state.count(k as int, d, t) > 0 && availability_at(*constraints, k as int, d, t) == a,
            )));
        assert(class_total == f(k as int));
        assert(sum_to(k + 1, f) == sum_to(k as int, f) + f(k as int));
        total = total + class_total;
        k = k + 1;
    }
    assert(f =~= (|k2: int|
        sum_to(
            DAY_COUNT as int,
            |d: int|
                count_to(
                    TIMESLOT_COUNT as int,
                    |t: int| state.count(k2, d, t) > 0 && availability_at(*constraints, k2, d, t) == a,
                ),
        )));
    total
}

/// Counts the sessions, over all classes, placed in a timeslot in which the class's
/// professor is not available.
pub fn count_not_available(state: &ClassCalendar, constraints: &OptimizationConstraints) -> (r: u64)
    requires
        professors_known(*state, *constraints),
        availability_penalty(*state, *constraints, Availability::NotAvailable) <= u64::MAX,
    ensures
        r == availability_penalty(*state, *constraints, Availability::NotAvailable),
{
    let r = count_with_availability(state, constraints, Availability::NotAvailable);
    r as u64
}

/// Counts the sessions, over all classes, placed in a timeslot in which the class's
/// professor is available only if needed.
pub fn count_available_if_needed(state: &ClassCalendar, constraints: &OptimizationConstraints) -> (r:
    u64)
    requires
        professors_known(*state, *constraints),
        availability_penalty(*state, *constraints, Availability::AvailableIfNeeded) <= u64::MAX,
    ensures
        r == availability_penalty(*state, *constraints, Availability::AvailableIfNeeded),
{
    let r = count_with_availability(state, constraints, Availability::AvailableIfNeeded);
    r as u64
}


/// Class `k` has a session on day `d`.
pub open spec fn day_used(state: ClassCalendar, k: int, d: int) -> bool {
    exists|t: int| 0 <= t < TIMESLOT_COUNT && state.count(k, d, t) > 0
}

/// Number of days on which class `k` has a session.
pub open spec fn days_used(state: ClassCalendar, k: int) -> int {
    count_to(DAY_COUNT as int, |d: int| day_used(state, k, d))
}

/// Number of days on which class `k` has a session in timeslot `t`.
pub open spec fn days_at_timeslot(state: ClassCalendar, k: int, t: int) -> int {
    count_to(DAY_COUNT as int, |d: int| state.count(k, d, t) > 0)
}

/// For a class that meets on at least two days, the timeslots it uses on exactly one
/// day; 0 for other classes.
pub open spec fn class_inconsistency(state: ClassCalendar, k: int) -> int {
    if days_used(state, k) >= 2 {
        count_to(TIMESLOT_COUNT as int, |t: int| days_at_timeslot(state, k, t) == 1)
    } else {
        0
    }
}

/// Over all classes, the timeslots that a class meeting on several days uses on one
/// day only.
pub open spec fn inconsistency_penalty(state: ClassCalendar) -> int {
    sum_to(state.num_classes() as int, |k: int| class_inconsistency(state, k))
}

/// Number of days on which class `k` has a session.
fn class_days_used(state: &ClassCalendar, k: usize) -> (r: u8)
    requires
        state.wf(),
        k < state.num_classes(),
    ensures
        r == days_used(*state, k as int),
        r <= DAY_COUNT,
{
    let days = Day::all();
    let timeslots = Timeslot::all();
    let ghost p = |d: int| day_used(*state, k as int, d);
    let mut count: u8 = 0;
    let mut di: usize = 0;
    while di < DAY_COUNT
        invariant
            state.wf(),
            k < state.num_classes(),
            days@.len() == DAY_COUNT,
            forall|i: int| 0 <= i < DAY_COUNT ==> #[trigger] days@[i].index() == i,
            timeslots@.len() == TIMESLOT_COUNT,
            forall|j: int| 0 <= j < TIMESLOT_COUNT ==> #[trigger] timeslots@[j].index() == j,
            p == (|d: int| day_used(*state, k as int, d)),
            di <= DAY_COUNT,
            count == count_to(di as int, p),
            count <= di,
        decreases DAY_COUNT - di,
    {
        let day = days[di];
        let mut found = false;
        let mut ti: usize = 0;
        while ti < TIMESLOT_COUNT
            invariant
                state.wf(),
                k < state.num_classes(),
                timeslots@.len() == TIMESLOT_COUNT,
                forall|j: int| 0 <= j < TIMESLOT_COUNT ==> #[trigger] timeslots@[j].index() == j,
                day.index() == di,
                ti <= TIMESLOT_COUNT,
                found == exists|t: int| 0 <= t < ti && state.count(k as int, di as int, t) > 0,
            decreases TIMESLOT_COUNT - ti,
        {
            let c = state.get_count(day, timeslots[ti], ClassKey(k));
            if c > 0 {
                found = true;
            }
            ti = ti + 1;
        }
        proof {
            lemma_count_step(di as int, p);
        }
        if found {
            count = count + 1;
        }
        di = di + 1;
    }
    count
}

/// Number of days on which class `k` has a session in `timeslot`.
fn timeslot_days_used(state: &ClassCalendar, k: usize, timeslot: Timeslot) -> (r: u8)
    requires
        state.wf(),
        k < state.num_classes(),
    ensures
        r == days_at_timeslot(*state, k as int, timeslot.index() as int),
        r <= DAY_COUNT,
{
    let days = Day::all();
    let ghost t = timeslot.index() as int;
    let ghost p = |d: int| state.count(k as int, d, t) > 0;
    let mut count: u8 = 0;
    let mut di: usize = 0;
    while di < DAY_COUNT
        invariant
            state.wf(),
            k < state.num_classes(),
            days@.len() == DAY_COUNT,
            forall|i: int| 0 <= i < DAY_COUNT ==> #[trigger] days@[i].index() == i,
            t == timeslot.index(),
            p == (|d: int| state.count(k as int, d, t) > 0),
            di <= DAY_COUNT,
            count == count_to(di as int, p),
            count <= di,
        decreases DAY_COUNT - di,
    {
        let c = state.get_count(days[di], timeslot, ClassKey(k));
        proof {
            lemma_count_step(di as int, p);
        }
        if c > 0 {
            count = count + 1;
        }
        di = di + 1;
    }
    count
}

/// Counts, over the classes that meet on at least two days, the timeslots a class uses
/// on exactly one day: a class is expected to keep the same timeslots every day it meets.
pub fn count_inconsistent_class_timeslots(state: &ClassCalendar) -> (r: u64)
    requires
        state.wf(),
        inconsistency_penalty(*state) <= u64::MAX,
    ensures
        r == inconsistency_penalty(*state),
{
    let n = state.class_count();
    let timeslots = Timeslot::all();
    let ghost f = |k: int| class_inconsistency(*state, k);
    let mut total: u128 = 0;
    let mut k: usize = 0;
    while k < n
        invariant
            state.wf(),
            n == state.num_classes(),
            k <= n,
            timeslots@.len() == TIMESLOT_COUNT,
            forall|j: int| 0 <= j < TIMESLOT_COUNT ==> #[trigger] timeslots@[j].index() == j,
            f == (|k2: int| class_inconsistency(*state, k2)),
            total == sum_to(k as int, f),
            total <= 12 * k,
        decreases n - k,
    {
        let used = class_days_used(state, k);
        let ghost p = |t: int| days_at_timeslot(*state, k as int, t) == 1;
        let mut class_total: u128 = 0;
        if used >= 2 {
            let mut ti: usize = 0;
            while ti < TIMESLOT_COUNT
                invariant
                    state.wf(),
                    k < n,
                    n == state.num_classes(),
                    timeslots@.len() == TIMESLOT_COUNT,
                    forall|j: int| 0 <= j < TIMESLOT_COUNT ==> #[trigger] timeslots@[j].index() == j,
                    p == (|t: int| days_at_timeslot(*state, k as int, t) == 1),
                    ti <= TIMESLOT_COUNT,
                    class_total == count_to(ti as int, p),
                    class_total <= ti,
                decreases TIMESLOT_COUNT - ti,
            {
                let c = timeslot_days_used(state, k, timeslots[ti]);
                proof {
                    lemma_count_step(ti as int, p);
                }
                if c == 1 {
                    class_total = class_total + 1;
                }
                ti = ti + 1;
            }
            assert(p =~= (|t: int| days_at_timeslot(*state, k as int, t) == 1));
        }
        assert(class_total == f(k as int));
        assert(sum_to(k + 1, f) == sum_to(k as int, f) + f(k as int));
        total = total + class_total;
        k = k + 1;
    }
    assert(f =~= (|k2: int| class_inconsistency(*state, k2)));
    total as u64
}

/// For a class allowed in a laboratory that meets on `c >= 2` days, `c - 1`; 0 for
/// other classes.
pub open spec fn class_lab_spread(state: ClassCalendar, constraints: OptimizationConstraints, k: int) -> int {
    let types = constraints.classes@[k].allowed_classroom_types;
    if (types.has(ClassroomType::LabFisica) || types.has(ClassroomType::LabQuimica)) && days_used(
        state,
        k,
    ) >= 2 {
        days_used(state, k) - 1
    } else {
        0
    }
}

/// Over the classes allowed in a laboratory, the days they meet beyond the first.
pub open spec fn lab_penalty(state: ClassCalendar, constraints: OptimizationConstraints) -> int {
    sum_to(state.num_classes() as int, |k: int| class_lab_spread(state, constraints, k))
}

/// A class that may use a chemistry laboratory or a physics laboratory, and meets on
/// `c >= 2` days of the week, adds at least `c - 1` to the laboratory penalty.
pub proof fn lemma_lab_spread_counted(state: ClassCalendar, constraints: OptimizationConstraints, k: int)
    requires
        0 <= k < state.num_classes(),
        constraints.classes@[k].allowed_classroom_types.lab_quimica
            || constraints.classes@[k].allowed_classroom_types.lab_fisica,
        days_used(state, k) >= 2,
    ensures
        lab_penalty(state, constraints) >= days_used(state, k) - 1,
{
    broadcast use lemma_count_nonneg;

    let f = |k2: int| class_lab_spread(state, constraints, k2);
    assert forall|k2: int| 0 <= k2 < state.num_classes() implies 0 <= #[trigger] f(k2) by {}
    lemma_term_le_sum(state.num_classes() as int, f, k);
}

/// The laboratory penalty is 0 when every class that may use a laboratory meets on at
/// most one day; classes without a laboratory never add to it.
pub proof fn lemma_lab_penalty_zero(state: ClassCalendar, constraints: OptimizationConstraints)
    requires
        forall|k: int|
            0 <= k < state.num_classes() && (constraints.classes@[k].allowed_classroom_types.lab_quimica
                || constraints.classes@[k].allowed_classroom_types.lab_fisica) ==> #[trigger] days_used(state, k)
                <= 1,
    ensures
        lab_penalty(state, constraints) == 0,
{
    let f = |k2: int| class_lab_spread(state, constraints, k2);
    assert forall|k2: int| 0 <= k2 < state.num_classes() implies #[trigger] f(k2) == 0 by {
        if constraints.classes@[k2].allowed_classroom_types.lab_quimica
            || constraints.classes@[k2].allowed_classroom_types.lab_fisica {
            assert(days_used(state, k2) <= 1);
        }
    }
    lemma_sum_zero(state.num_classes() as int, f);
}

/// Counts, for every class allowed in a laboratory (chemistry or physics), the days it
/// meets beyond the first: laboratory sessions are expected to fall on one day.
pub fn count_labs_on_different_days(state: &ClassCalendar, constraints: &OptimizationConstraints) -> (r:
    u64)
    requires
        classes_known(*state, *constraints),
        lab_penalty(*state, *constraints) <= u64::MAX,
    ensures
        r == lab_penalty(*state, *constraints),
{
    let n = state.class_count();
    let ghost f = |k: int| class_lab_spread(*state, *constraints, k);
    let mut total: u128 = 0;
    let mut k: usize = 0;
    while k < n
        invariant
            classes_known(*state, *constraints),
            n == state.num_classes(),
            k <= n,
            f == (|k2: int| class_lab_spread(*state, *constraints, k2)),
            total == sum_to(k as int, f),
            total <= 4 * k,
        decreases n - k,
    {
        let mut class_total: u128 = 0;
        if constraints.classes[k].allowed_classroom_types.has_lab() {
            let used = class_days_used(state, k);
            if used >= 2 {
                class_total = (used - 1) as u128;
            }
        }
        assert(class_total == f(k as int));
        assert(sum_to(k + 1, f) == sum_to(k as int, f) + f(k as int));
        total = total + class_total;
        k = k + 1;
    }
    assert(f =~= (|k2: int| class_lab_spread(*state, *constraints, k2)));
    total as u64
}


/// For each timeslot of day `d`, whether some class of semester number `s` has a
/// session there.
pub open spec fn semester_presence(
    state: ClassCalendar,
    constraints: OptimizationConstraints,
    s: int,
    d: int,
) -> Seq<bool> {
    Seq::new(
        TIMESLOT_COUNT as nat,
        |t: int|
            exists|k: int|
                0 <= k < state.num_classes() && state.count(k, d, t) >= 1 && semester_number(
                    constraints.classes@[k].semester,
                ) == s,
    )
}

/// Over the semesters and days, the free timeslots between the first and the last
/// session of the semester's classes that day.
pub open spec fn semester_holes_penalty(state: ClassCalendar, constraints: OptimizationConstraints) -> int {
    sum_to(
        SEMESTER_COUNT as int,
        |j: int|
            sum_to(DAY_COUNT as int, |d: int| holes(semester_presence(state, constraints, j + 1, d))),
    )
}

/// For each timeslot of `day`, whether some class of `semester` has a session there.
fn semester_row(
    state: &ClassCalendar,
    constraints: &OptimizationConstraints,
    semester: Semester,
    day: Day,
) -> (r: Vec<bool>)
    requires
        classes_known(*state, *constraints),
    ensures
        r@ == semester_presence(*state, *constraints, semester_number(semester), day.index() as int),
{
    let n = state.class_count();
    let s = semester.to_u32();
    let timeslots = Timeslot::all();
    let ghost d = day.index() as int;
    let mut r: Vec<bool> = Vec::new();
    let mut ti: usize = 0;
    while ti < TIMESLOT_COUNT
        invariant
            classes_known(*state, *constraints),
            n == state.num_classes(),
            s == semester_number(semester),
            d == day.index(),
            timeslots@.len() == TIMESLOT_COUNT,
            forall|j: int| 0 <= j < TIMESLOT_COUNT ==> #[trigger] timeslots@[j].index() == j,
            ti <= TIMESLOT_COUNT,
            r@.len() == ti,
            forall|j: int|
                0 <= j < ti ==> #[trigger] r@[j] == semester_presence(*state, *constraints, s as int, d)[j],
        decreases TIMESLOT_COUNT - ti,
    {
        let timeslot = timeslots[ti];
        let mut found = false;
        let mut k: usize = 0;
        while k < n
            invariant
                classes_known(*state, *constraints),
                n == state.num_classes(),
                s == semester_number(semester),
                d == day.index(),
                timeslot.index() == ti,
                k <= n,
                found == exists|k2: int|
                    0 <= k2 < k && state.count(k2, d, ti as int) >= 1 && semester_number(
                        constraints.classes@[k2].semester,
                    ) == s,
            decreases n - k,
        {
            let c = state.get_count(day, timeslot, ClassKey(k));
            if c >= 1 && constraints.classes[k].semester.to_u32() == s {
                found = true;
            }
            k = k + 1;
        }
        r.push(found);
        ti = ti + 1;
    }
    assert(r@ =~= semester_presence(*state, *constraints, s as int, d));
    r
}

/// Counts, for every semester and day, the free timeslots between the first and the
/// last session of the semester's classes that day: a semester's day is expected to
/// be one block.
pub fn count_holes_per_semester(state: &ClassCalendar, constraints: &OptimizationConstraints) -> (r: u64)
    requires
        classes_known(*state, *constraints),
    ensures
        r == semester_holes_penalty(*state, *constraints),
{
    let semesters = all_semesters();
    let days = Day::all();
    let ghost f = |j: int|
        sum_to(DAY_COUNT as int, |d: int| holes(semester_presence(*state, *constraints, j + 1, d)));
    let mut total: u64 = 0;
    let mut si: usize = 0;
    while si < SEMESTER_COUNT
        invariant
            classes_known(*state, *constraints),
            semesters@.len() == SEMESTER_COUNT,
            forall|i: int| 0 <= i < SEMESTER_COUNT ==> semester_number(#[trigger] semesters@[i]) == i + 1,
            days@.len() == DAY_COUNT,
            forall|i: int| 0 <= i < DAY_COUNT ==> #[trigger] days@[i].index() == i,
            f == (|j: int|
                sum_to(DAY_COUNT as int, |d: int| holes(semester_presence(*state, *constraints, j + 1, d)))),
            si <= SEMESTER_COUNT,
            total == sum_to(si as int, f),
            total <= 60 * si,
        decreases SEMESTER_COUNT - si,
    {
        let semester = semesters[si];
        let ghost g = |d: int| holes(semester_presence(*state, *constraints, si + 1, d));
        let mut semester_total: u64 = 0;
        let mut di: usize = 0;
        while di < DAY_COUNT
            invariant
                classes_known(*state, *constraints),
                semester_number(semester) == si + 1,
                days@.len() == DAY_COUNT,
                forall|i: int| 0 <= i < DAY_COUNT ==> #[trigger] days@[i].index() == i,
                g == (|d: int| holes(semester_presence(*state, *constraints, si + 1, d))),
                di <= DAY_COUNT,
                semester_total == sum_to(di as int, g),
                semester_total <= 12 * di,
            decreases DAY_COUNT - di,
        {
            let row = semester_row(state, constraints, semester, days[di]);
            let h = count_holes(&row);
            assert(sum_to(di + 1, g) == sum_to(di as int, g) + g(di as int));
            semester_total = semester_total + h;
            di = di + 1;
        }
        assert(g =~= (|d: int| holes(semester_presence(*state, *constraints, si + 1, d))));
        assert(semester_total == f(si as int));
        assert(sum_to(si + 1, f) == sum_to(si as int, f) + f(si as int));
        total = total + semester_total;
        si = si + 1;
    }
    assert(f =~= (|j: int|
        sum_to(DAY_COUNT as int, |d: int| holes(semester_presence(*state, *constraints, j + 1, d)))));
    total
}


/// The penalties read from the shape of the days are never negative.
pub proof fn lemma_day_penalties_nonneg(
    state: ClassCalendar,
    constraints: OptimizationConstraints,
    min: int,
    max: int,
)
    ensures
        0 <= session_length_penalty(state, min, max),
        0 <= gap_penalty(state),
        0 <= availability_penalty(state, constraints, Availability::NotAvailable),
        0 <= availability_penalty(state, constraints, Availability::AvailableIfNeeded),
        0 <= inconsistency_penalty(state),
        0 <= lab_penalty(state, constraints),
        0 <= semester_holes_penalty(state, constraints),
{
    broadcast use lemma_count_nonneg;

    let n = state.num_classes() as int;
    assert forall|k: int| 0 <= k < n implies 0 <= #[trigger] class_session_faults(state, k, min, max) by {
        lemma_sum_nonneg(DAY_COUNT as int, |d: int| runs_outside(presence(state, k, d), min, max));
    }
    lemma_sum_nonneg(n, |k: int| class_session_faults(state, k, min, max));
    lemma_sum_nonneg(n, |k: int| count_to(DAY_COUNT as int, |d: int| has_gap(presence(state, k, d))));
    assert forall|a: Availability| 0 <= #[trigger] availability_penalty(state, constraints, a) by {
        let inner = |k: int|
            (|d: int|
                count_to(
                    TIMESLOT_COUNT as int,
                    |t: int| state.count(k, d, t) > 0 && availability_at(constraints, k, d, t) == a,
                ));
        let outer = |k: int| sum_to(DAY_COUNT as int, inner(k));
        assert forall|k: int| 0 <= k < n implies 0 <= #[trigger] outer(k) by {
            lemma_sum_nonneg(DAY_COUNT as int, inner(k));
        }
        lemma_sum_nonneg(n, outer);
        assert(outer =~= (|k: int|
            sum_to(
                DAY_COUNT as int,
                |d: int|
                    count_to(
                        TIMESLOT_COUNT as int,
                        |t: int| state.count(k, d, t) > 0 && availability_at(constraints, k, d, t) == a,
                    ),
            )));
    }
    lemma_sum_nonneg(n, |k: int| class_inconsistency(state, k));
    lemma_sum_nonneg(n, |k: int| class_lab_spread(state, constraints, k));
    let sem_day = |j: int| (|d: int| holes(semester_presence(state, constraints, j + 1, d)));
    let sem = |j: int| sum_to(DAY_COUNT as int, sem_day(j));
    assert forall|j: int| 0 <= j < SEMESTER_COUNT implies 0 <= #[trigger] sem(j) by {
        lemma_sum_nonneg(DAY_COUNT as int, sem_day(j));
    }
    lemma_sum_nonneg(SEMESTER_COUNT as int, sem);
    assert(sem =~= (|j: int|
        sum_to(DAY_COUNT as int, |d: int| holes(semester_presence(state, constraints, j + 1, d)))));
}

} // verus!
