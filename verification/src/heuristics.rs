//! The penalties that grade a calendar of sessions: every function counts one kind
//! of fault, and the optimizer weighs them together.
use vstd::prelude::*;

use crate::class_calendar::ClassCalendar;
use crate::constraints::{semester_number, ClassKey, OptimizationConstraints, SEMESTER_COUNT};
use crate::sums::{
    lemma_sum_bounds, lemma_sum_ext, lemma_sum_le, lemma_sum_monotone,
    lemma_sum_nonneg, lemma_sum_update, lemma_sum_zero, lemma_term_le_sum, sum_to,
};
use crate::week_calendar::{Day, Timeslot, DAY_COUNT, TIMESLOT_COUNT};

verus! {

/// An upper bound on any sum of session counts over the classes of a calendar.
pub open spec fn count_sum_bound() -> int {
    0x1_0000_0000_0000_0000_00
}

/// Number of sessions of all classes in (`d`, `t`).
pub open spec fn slot_total(state: ClassCalendar, d: int, t: int) -> int {
    sum_to(state.num_classes() as int, |k: int| state.count(k, d, t))
}

/// A number of sessions sharing a timeslot, counted only when there are several.
pub open spec fn crowded(x: int) -> int {
    if x >= 2 {
        x
    } else {
        0
    }
}

/// The sessions that share their timeslot with another session, over the week.
pub open spec fn same_timeslot_penalty(state: ClassCalendar) -> int {
    sum_to(
        DAY_COUNT as int,
        |d: int| sum_to(TIMESLOT_COUNT as int, |t: int| crowded(slot_total(state, d, t))),
    )
}

/// Sums the session counts of all classes in one cell.
pub(crate) fn cell_total(state: &ClassCalendar, day: Day, timeslot: Timeslot) -> (r: u128)
    requires
        state.wf(),
    ensures
        r == slot_total(*state, day.index() as int, timeslot.index() as int),
        r < count_sum_bound(),
{
    let n = state.class_count();
    let ghost d = day.index() as int;
    let ghost t = timeslot.index() as int;
    let ghost f = |k2: int| state.count(k2, d, t);
    let mut x: u128 = 0;
    let mut k: usize = 0;
    while k < n
        invariant
            state.wf(),
            n == state.num_classes(),
            k <= n,
            d == day.index(),
            t == timeslot.index(),
            f == (|k2: int| state.count(k2, d, t)),
            x == sum_to(k as int, f),
            x <= 255 * k,
        decreases n - k,
    {
        let c = state.get_count(day, timeslot, ClassKey(k));
        assert(sum_to(k + 1, f) == sum_to(k as int, f) + f(k as int));
        assert(c == f(k as int));
        x = x + c as u128;
        k = k + 1;
        assert(x == sum_to(k as int, f));
    }
    assert(f =~= (|k2: int| state.count(k2, d, t)));
    x
}

/// The sessions that share their timeslot with another session: in every cell of the
/// week that holds at least two sessions (of any classes), all of them count.
pub fn same_timeslot_classes_count(state: &ClassCalendar) -> (r: u64)
    requires
        state.wf(),
        same_timeslot_penalty(*state) <= u64::MAX,
    ensures
        r == same_timeslot_penalty(*state),
{
    let days = Day::all();
    let timeslots = Timeslot::all();
    let ghost row = |d: int| (|t: int| crowded(slot_total(*state, d, t)));
    let ghost rows = |d: int| sum_to(TIMESLOT_COUNT as int, row(d));
    let mut total: u128 = 0;
    let mut di: usize = 0;
    while di < DAY_COUNT
        invariant
            state.wf(),
            days@.len() == DAY_COUNT,
            timeslots@.len() == TIMESLOT_COUNT,
            forall|i: int| 0 <= i < DAY_COUNT ==> #[trigger] days@[i].index() == i,
            forall|i: int| 0 <= i < TIMESLOT_COUNT ==> #[trigger] timeslots@[i].index() == i,
            di <= DAY_COUNT,
            row == (|d: int| (|t: int| crowded(slot_total(*state, d, t)))),
            rows == (|d: int| sum_to(TIMESLOT_COUNT as int, row(d))),
            total == sum_to(di as int, rows),
            total <= di * TIMESLOT_COUNT * count_sum_bound(),
        decreases DAY_COUNT - di,
    {
        let day = days[di];
        let mut row_total: u128 = 0;
        let mut ti: usize = 0;
        while ti < TIMESLOT_COUNT
            invariant
                state.wf(),
                timeslots@.len() == TIMESLOT_COUNT,
                forall|i: int| 0 <= i < TIMESLOT_COUNT ==> #[trigger] timeslots@[i].index() == i,
                day.index() == di,
                ti <= TIMESLOT_COUNT,
                row == (|d: int| (|t: int| crowded(slot_total(*state, d, t)))),
                row_total == sum_to(ti as int, row(di as int)),
                row_total <= ti * count_sum_bound(),
            decreases TIMESLOT_COUNT - ti,
        {
            let x = cell_total(state, day, timeslots[ti]);
            assert(sum_to(ti + 1, row(di as int)) == sum_to(ti as int, row(di as int)) + row(di as int)(ti as int));
            if x >= 2 {
                row_total = row_total + x;
            }
            ti = ti + 1;
        }
        assert(sum_to(di + 1, rows) == sum_to(di as int, rows) + rows(di as int));
        total = total + row_total;
        di = di + 1;
    }
    assert(rows =~= (|d: int| sum_to(TIMESLOT_COUNT as int, |t: int| crowded(slot_total(*state, d, t)))));
    total as u64
}

/// Every class of the calendar is described by the constraints.
pub open spec fn classes_known(state: ClassCalendar, constraints: OptimizationConstraints) -> bool {
    &&& state.wf()
    &&& state.num_classes() <= constraints.classes@.len()
}

/// Every class of the calendar is described by the constraints, and its professor
/// is one of theirs.
pub open spec fn professors_known(state: ClassCalendar, constraints: OptimizationConstraints) -> bool {
    &&& classes_known(state, constraints)
    &&& forall|k: int|
        0 <= k < state.num_classes() ==> (#[trigger] constraints.classes@[k]).professor_key.0
            < constraints.professors@.len()
}

/// The sessions in (`d`, `t`) of class `k` when its bucket in `b` is `j`, else 0.
pub open spec fn bucket_term(state: ClassCalendar, b: Seq<usize>, j: int, d: int, t: int) -> spec_fn(int) -> int {
    |k: int|
        if b[k] == j {
            state.count(k, d, t)
        } else {
            0
        }
}

/// Number of sessions in (`d`, `t`) of the classes whose bucket in `b` is `j`.
pub open spec fn bucket_slot(state: ClassCalendar, b: Seq<usize>, j: int, d: int, t: int) -> int {
    sum_to(state.num_classes() as int, bucket_term(state, b, j, d, t))
}

/// Over the week, for every bucket of `0..nb`, the sessions of its classes that share
/// their timeslot with another session of the same bucket.
pub open spec fn bucket_penalty(state: ClassCalendar, b: Seq<usize>, nb: int) -> int {
    sum_to(
        DAY_COUNT as int,
        |d: int|
            sum_to(
                TIMESLOT_COUNT as int,
                |t: int| sum_to(nb, |j: int| crowded(bucket_slot(state, b, j, d, t))),
            ),
    )
}

/// The professor of every class of the calendar.
pub open spec fn professor_buckets(state: ClassCalendar, constraints: OptimizationConstraints) -> Seq<usize> {
    Seq::new(state.num_classes(), |k: int| constraints.classes@[k].professor_key.0)
}

/// The semester (0 to 7) of every class of the calendar.
pub open spec fn semester_buckets(state: ClassCalendar, constraints: OptimizationConstraints) -> Seq<usize> {
    Seq::new(state.num_classes(), |k: int| (semester_number(constraints.classes@[k].semester) - 1) as usize)
}

/// Sessions of one professor that share their timeslot with another of theirs.
pub open spec fn same_professor_penalty(state: ClassCalendar, constraints: OptimizationConstraints) -> int {
    bucket_penalty(state, professor_buckets(state, constraints), constraints.professors@.len() as int)
}

/// Sessions of one semester that share their timeslot with another of the same semester.
pub open spec fn same_semester_penalty(state: ClassCalendar, constraints: OptimizationConstraints) -> int {
    bucket_penalty(state, semester_buckets(state, constraints), SEMESTER_COUNT as int)
}

/// For one cell, the number of sessions per bucket.
fn bucket_cell_counts(
    state: &ClassCalendar,
    buckets: &Vec<usize>,
    nb: usize,
    day: Day,
    timeslot: Timeslot,
) -> (r: Vec<u128>)
    requires
        state.wf(),
        buckets@.len() == state.num_classes(),
        forall|k: int| 0 <= k < buckets@.len() ==> #[trigger] buckets@[k] < nb,
    ensures
        r@.len() == nb,
        forall|j: int|
            0 <= j < nb ==> #[trigger] r@[j] == bucket_slot(
                *state,
                buckets@,
                j,
                day.index() as int,
                timeslot.index() as int,
            ),
        forall|j: int| 0 <= j < nb ==> #[trigger] r@[j] < count_sum_bound(),
        sum_to(nb as int, |j: int| r@[j] as int) == slot_total(*state, day.index() as int, timeslot.index() as int),
{
    let n = state.class_count();
    let ghost d = day.index() as int;
    let ghost t = timeslot.index() as int;
    let ghost term = |j: int|
        (|k: int|
            if buckets@[k] == j {
                state.count(k, d, t)
            } else {
                0
            });
    let mut r: Vec<u128> = Vec::new();
    let mut i: usize = 0;
    while i < nb
        invariant
            i <= nb,
            r@.len() == i,
            forall|j: int| 0 <= j < i ==> #[trigger] r@[j] == 0,
        decreases nb - i,
    {
        r.push(0);
        i = i + 1;
    }
    proof {
        lemma_sum_zero(nb as int, |j: int| r@[j] as int);
    }
    let mut k: usize = 0;
    while k < n
        invariant
            state.wf(),
            n == state.num_classes(),
            buckets@.len() == n,
            forall|k2: int| 0 <= k2 < buckets@.len() ==> #[trigger] buckets@[k2] < nb,
            k <= n,
            d == day.index(),
            t == timeslot.index(),
            term == (|j: int|
                (|k2: int|
                    if buckets@[k2] == j {
                        state.count(k2, d, t)
                    } else {
                        0
                    })),
            r@.len() == nb,
            forall|j: int| 0 <= j < nb ==> #[trigger] r@[j] == sum_to(k as int, term(j)),
            forall|j: int| 0 <= j < nb ==> #[trigger] r@[j] <= 255 * k,
            sum_to(nb as int, |j: int| r@[j] as int) == sum_to(k as int, |k2: int| state.count(k2, d, t)),
        decreases n - k,
    {
        let c = state.get_count(day, timeslot, ClassKey(k));
        let b = buckets[k];
        let ghost old_r = r@;
        let v = r[b] + c as u128;
        r.set(b, v);
        proof {
            assert forall|j: int| 0 <= j < nb implies #[trigger] r@[j] == sum_to(k + 1, term(j)) by {
                assert(sum_to(k + 1, term(j)) == sum_to(k as int, term(j)) + term(j)(k as int));
                if j == b {
                    assert(term(j)(k as int) == c);
                } else {
                    assert(term(j)(k as int) == 0);
                    assert(r@[j] == old_r[j]);
                }
            }
            assert forall|j: int| 0 <= j < nb implies #[trigger] r@[j] <= 255 * (k + 1) by {
                if j != b {
                    assert(r@[j] == old_r[j]);
                }
            }
            lemma_sum_update(nb as int, |j: int| old_r[j] as int, |j: int| r@[j] as int, b as int, c as int);
            assert(sum_to(k + 1, |k2: int| state.count(k2, d, t)) == sum_to(k as int, |k2: int| state.count(k2, d, t)) + state.count(k as int, d, t));
        }
        k = k + 1;
    }
    proof {
        assert forall|j: int| 0 <= j < nb implies #[trigger] r@[j] == bucket_slot(
            *state,
            buckets@,
            j,
            d,
            t,
        ) by {
            assert(term(j) =~= bucket_term(*state, buckets@, j, d, t));
        }
    }
    r
}

/// The sum, over the buckets, of the crowded counts of one cell.
fn crowded_sum(v: &Vec<u128>) -> (r: u128)
    requires
        sum_to(v@.len() as int, |j: int| v@[j] as int) < count_sum_bound(),
    ensures
        r == sum_to(v@.len() as int, |j: int| crowded(v@[j] as int)),
        r < count_sum_bound(),
{
    let ghost f = |j: int| crowded(v@[j] as int);
    let mut r: u128 = 0;
    let mut j: usize = 0;
    while j < v.len()
        invariant
            sum_to(v@.len() as int, |j2: int| v@[j2] as int) < count_sum_bound(),
            j <= v@.len(),
            f == (|j2: int| crowded(v@[j2] as int)),
            r == sum_to(j as int, f),
            r <= sum_to(j as int, |j2: int| v@[j2] as int),
        decreases v@.len() - j,
    {
        assert(sum_to(j + 1, f) == sum_to(j as int, f) + f(j as int));
        assert(sum_to(j + 1, |j2: int| v@[j2] as int) == sum_to(j as int, |j2: int| v@[j2] as int) + v@[j as int]);
        proof {
            lemma_sum_monotone(j + 1, v@.len() as int, |j2: int| v@[j2] as int);
        }
        if v[j] >= 2 {
            r = r + v[j];
        }
        j = j + 1;
    }
    r
}

/// The bucket penalty of a calendar: `bucket_penalty` computed over the week.
fn bucket_penalty_of(state: &ClassCalendar, buckets: &Vec<usize>, nb: usize) -> (r: u128)
    requires
        state.wf(),
        buckets@.len() == state.num_classes(),
        forall|k: int| 0 <= k < buckets@.len() ==> #[trigger] buckets@[k] < nb,
    ensures
        r == bucket_penalty(*state, buckets@, nb as int),
{
    let days = Day::all();
    let timeslots = Timeslot::all();
    let ghost row = |d: int|
        (|t: int| sum_to(nb as int, |j: int| crowded(bucket_slot(*state, buckets@, j, d, t))));
    let ghost rows = |d: int| sum_to(TIMESLOT_COUNT as int, row(d));
    let mut total: u128 = 0;
    let mut di: usize = 0;
    while di < DAY_COUNT
        invariant
            state.wf(),
            buckets@.len() == state.num_classes(),
            forall|k: int| 0 <= k < buckets@.len() ==> #[trigger] buckets@[k] < nb,
            days@.len() == DAY_COUNT,
            timeslots@.len() == TIMESLOT_COUNT,
            forall|i: int| 0 <= i < DAY_COUNT ==> #[trigger] days@[i].index() == i,
            forall|i: int| 0 <= i < TIMESLOT_COUNT ==> #[trigger] timeslots@[i].index() == i,
            di <= DAY_COUNT,
            row == (|d: int|
                (|t: int| sum_to(nb as int, |j: int| crowded(bucket_slot(*state, buckets@, j, d, t))))),
            rows == (|d: int| sum_to(TIMESLOT_COUNT as int, row(d))),
            total == sum_to(di as int, rows),
            total <= di * TIMESLOT_COUNT * count_sum_bound(),
        decreases DAY_COUNT - di,
    {
        let day = days[di];
        let mut row_total: u128 = 0;
        let mut ti: usize = 0;
        while ti < TIMESLOT_COUNT
            invariant
                state.wf(),
                buckets@.len() == state.num_classes(),
                forall|k: int| 0 <= k < buckets@.len() ==> #[trigger] buckets@[k] < nb,
                timeslots@.len() == TIMESLOT_COUNT,
                forall|i: int| 0 <= i < TIMESLOT_COUNT ==> #[trigger] timeslots@[i].index() == i,
                day.index() == di,
                ti <= TIMESLOT_COUNT,
                row == (|d: int|
                    (|t: int| sum_to(nb as int, |j: int| crowded(bucket_slot(*state, buckets@, j, d, t))))),
                row_total == sum_to(ti as int, row(di as int)),
                row_total <= ti * count_sum_bound(),
            decreases TIMESLOT_COUNT - ti,
        {
            let timeslot = timeslots[ti];
            let counts = bucket_cell_counts(state, buckets, nb, day, timeslot);
            let n = state.class_count();
            proof {
                lemma_sum_bounds(
                    state.num_classes() as int,
                    |k2: int| state.count(k2, di as int, ti as int),
                    255,
                );
                assert(slot_total(*state, di as int, ti as int) == sum_to(
                    state.num_classes() as int,
                    |k2: int| state.count(k2, di as int, ti as int),
                ));
                assert(255 * n < count_sum_bound());
            }
            let x = crowded_sum(&counts);
            proof {
                lemma_sum_ext(
                    nb as int,
                    |j: int| crowded(counts@[j] as int),
                    |j: int| crowded(bucket_slot(*state, buckets@, j, di as int, ti as int)),
                );
                assert(row(di as int)(ti as int) == x);
            }
            assert(sum_to(ti + 1, row(di as int)) == sum_to(ti as int, row(di as int)) + row(di as int)(ti as int));
            row_total = row_total + x;
            ti = ti + 1;
        }
        assert(sum_to(di + 1, rows) == sum_to(di as int, rows) + rows(di as int));
        total = total + row_total;
        di = di + 1;
    }
    assert(rows =~= (|d: int|
        sum_to(
            TIMESLOT_COUNT as int,
            |t: int| sum_to(nb as int, |j: int| crowded(bucket_slot(*state, buckets@, j, d, t))),
        )));
    total
}

/// Sessions of one professor that share their timeslot with another session of the
/// same professor: in every cell, for every professor teaching at least two sessions
/// there, all of them count.
pub fn same_timeslot_classes_count_per_professor(
    state: &ClassCalendar,
    constraints: &OptimizationConstraints,
) -> (r: u64)
    requires
        professors_known(*state, *constraints),
        same_professor_penalty(*state, *constraints) <= u64::MAX,
    ensures
        r == same_professor_penalty(*state, *constraints),
{
    let n = state.class_count();
    let mut buckets: Vec<usize> = Vec::new();
    let mut k: usize = 0;
    while k < n
        invariant
            professors_known(*state, *constraints),
            n == state.num_classes(),
            k <= n,
            buckets@.len() == k,
            forall|i: int| 0 <= i < k ==> #[trigger] buckets@[i] == constraints.classes@[i].professor_key.0,
        decreases n - k,
    {
        buckets.push(constraints.classes[k].professor_key.0);
        k = k + 1;
    }
    proof {
        assert(buckets@ =~= professor_buckets(*state, *constraints));
        assert forall|i: int| 0 <= i < buckets@.len() implies #[trigger] buckets@[i] < constraints.professors@.len() by {
            assert(constraints.classes@[i].professor_key.0 < constraints.professors@.len());
        }
    }
    let r = bucket_penalty_of(state, &buckets, constraints.professors.len());
    r as u64
}

/// Sessions of one semester that share their timeslot with another session of the
/// same semester: in every cell, for every semester with at least two sessions there,
/// all of them count.
pub fn same_timeslot_classes_count_per_semester(
    state: &ClassCalendar,
    constraints: &OptimizationConstraints,
) -> (r: u64)
    requires
        classes_known(*state, *constraints),
        same_semester_penalty(*state, *constraints) <= u64::MAX,
    ensures
        r == same_semester_penalty(*state, *constraints),
{
    let n = state.class_count();
    let mut buckets: Vec<usize> = Vec::new();
    let mut k: usize = 0;
    while k < n
        invariant
            classes_known(*state, *constraints),
            n == state.num_classes(),
            k <= n,
            buckets@.len() == k,
            forall|i: int|
                0 <= i < k ==> #[trigger] buckets@[i] == (semester_number(constraints.classes@[i].semester) - 1) as usize,
            forall|i: int| 0 <= i < k ==> #[trigger] buckets@[i] < SEMESTER_COUNT,
        decreases n - k,
    {
        buckets.push(constraints.classes[k].semester.index());
        k = k + 1;
    }
    proof {
        assert(buckets@ =~= semester_buckets(*state, *constraints));
    }
    let r = bucket_penalty_of(state, &buckets, SEMESTER_COUNT);
    r as u64
}


/// The penalty for crowded cells is never negative.
pub proof fn lemma_same_timeslot_penalty_nonneg(state: ClassCalendar)
    ensures
        0 <= same_timeslot_penalty(state),
{
    let row = |d: int| (|t: int| crowded(slot_total(state, d, t)));
    let rows = |d: int| sum_to(TIMESLOT_COUNT as int, row(d));
    assert forall|d: int| 0 <= d < DAY_COUNT implies 0 <= #[trigger] rows(d) by {
        lemma_sum_nonneg(TIMESLOT_COUNT as int, row(d));
    }
    lemma_sum_nonneg(DAY_COUNT as int, rows);
    assert(rows =~= (|d: int| sum_to(TIMESLOT_COUNT as int, |t: int| crowded(slot_total(state, d, t)))));
}

/// The penalty for crowded buckets is never negative.
pub proof fn lemma_bucket_penalty_nonneg(state: ClassCalendar, b: Seq<usize>, nb: int)
    ensures
        0 <= bucket_penalty(state, b, nb),
{
    let row = |d: int| (|t: int| sum_to(nb, |j: int| crowded(bucket_slot(state, b, j, d, t))));
    let rows = |d: int| sum_to(TIMESLOT_COUNT as int, row(d));
    assert forall|d: int| 0 <= d < DAY_COUNT implies 0 <= #[trigger] rows(d) by {
        assert forall|t: int| 0 <= t < TIMESLOT_COUNT implies 0 <= #[trigger] row(d)(t) by {
            lemma_sum_nonneg(nb, |j: int| crowded(bucket_slot(state, b, j, d, t)));
        }
        lemma_sum_nonneg(TIMESLOT_COUNT as int, row(d));
    }
    lemma_sum_nonneg(DAY_COUNT as int, rows);
    assert(rows =~= (|d: int|
        sum_to(
            TIMESLOT_COUNT as int,
            |t: int| sum_to(nb, |j: int| crowded(bucket_slot(state, b, j, d, t))),
        )));
}

/// Each bucket of a cell holds at most the sessions of the cell.
pub proof fn lemma_bucket_slot_bounds(state: ClassCalendar, b: Seq<usize>, j: int, d: int, t: int)
    ensures
        0 <= bucket_slot(state, b, j, d, t) <= slot_total(state, d, t),
{
    let n = state.num_classes() as int;
    let f = bucket_term(state, b, j, d, t);
    let g = |k: int| state.count(k, d, t);
    assert forall|k: int| 0 <= k < n implies 0 <= #[trigger] f(k) <= g(k) by {}
    lemma_sum_nonneg(n, f);
    lemma_sum_le(n, f, g);
}

/// Number of sessions in (`d`, `t`) of the classes of the calendar that professor `p`
/// teaches.
pub open spec fn professor_load(state: ClassCalendar, constraints: OptimizationConstraints, p: int, d: int, t: int) -> int {
    sum_to(
        state.num_classes() as int,
        |k: int|
            if constraints.classes@[k].professor_key.0 == p {
                state.count(k, d, t)
            } else {
                0
            },
    )
}

/// The bucket of professor `p` in a cell holds the sessions that `p` teaches there.
proof fn lemma_professor_slot(state: ClassCalendar, constraints: OptimizationConstraints, p: int, d: int, t: int)
    ensures
        bucket_slot(state, professor_buckets(state, constraints), p, d, t) == professor_load(
            state,
            constraints,
            p,
            d,
            t,
        ),
{
    lemma_sum_ext(
        state.num_classes() as int,
        bucket_term(state, professor_buckets(state, constraints), p, d, t),
        |k: int|
            if constraints.classes@[k].professor_key.0 == p {
                state.count(k, d, t)
            } else {
                0
            },
    );
}

/// When no professor teaches two sessions in one cell of the week (sessions of
/// different professors may share a cell), the professor penalty is 0.
pub proof fn lemma_professor_penalty_zero(state: ClassCalendar, constraints: OptimizationConstraints)
    requires
        forall|p: int, d: int, t: int|
            0 <= d < DAY_COUNT && 0 <= t < TIMESLOT_COUNT ==> #[trigger] professor_load(state, constraints, p, d, t)
                <= 1,
    ensures
        same_professor_penalty(state, constraints) == 0,
{
    let b = professor_buckets(state, constraints);
    let nb = constraints.professors@.len() as int;
    let row = |d: int| (|t: int| sum_to(nb, |j: int| crowded(bucket_slot(state, b, j, d, t))));
    let rows = |d: int| sum_to(TIMESLOT_COUNT as int, row(d));
    assert forall|d: int| 0 <= d < DAY_COUNT implies #[trigger] rows(d) == 0 by {
        assert forall|t: int| 0 <= t < TIMESLOT_COUNT implies #[trigger] row(d)(t) == 0 by {
            assert forall|j: int| 0 <= j < nb implies #[trigger] crowded(bucket_slot(state, b, j, d, t)) == 0 by {
                lemma_professor_slot(state, constraints, j, d, t);
                assert(professor_load(state, constraints, j, d, t) <= 1);
            }
            lemma_sum_zero(nb, |j: int| crowded(bucket_slot(state, b, j, d, t)));
        }
        lemma_sum_zero(TIMESLOT_COUNT as int, row(d));
    }
    lemma_sum_zero(DAY_COUNT as int, rows);
    assert(rows =~= (|d: int|
        sum_to(
            TIMESLOT_COUNT as int,
            |t: int| sum_to(nb, |j: int| crowded(bucket_slot(state, b, j, d, t))),
        )));
}

/// When professor `p` teaches two or more sessions in one cell, all of them count in
/// the professor penalty.
pub proof fn lemma_professor_clash_counted(
    state: ClassCalendar,
    constraints: OptimizationConstraints,
    p: int,
    d: int,
    t: int,
)
    requires
        0 <= p < constraints.professors@.len(),
        0 <= d < DAY_COUNT,
        0 <= t < TIMESLOT_COUNT,
        professor_load(state, constraints, p, d, t) >= 2,
    ensures
        same_professor_penalty(state, constraints) >= professor_load(state, constraints, p, d, t),
{
    let b = professor_buckets(state, constraints);
    let nb = constraints.professors@.len() as int;
    let row = |d2: int| (|t2: int| sum_to(nb, |j: int| crowded(bucket_slot(state, b, j, d2, t2))));
    let rows = |d2: int| sum_to(TIMESLOT_COUNT as int, row(d2));
    assert forall|d2: int, t2: int| 0 <= t2 < TIMESLOT_COUNT implies 0 <= #[trigger] row(d2)(t2) by {
        assert forall|j: int| 0 <= j < nb implies 0 <= #[trigger] crowded(bucket_slot(state, b, j, d2, t2)) by {
            lemma_bucket_slot_bounds(state, b, j, d2, t2);
        }
        lemma_sum_nonneg(nb, |j: int| crowded(bucket_slot(state, b, j, d2, t2)));
    }
    assert forall|d2: int| 0 <= d2 < DAY_COUNT implies 0 <= #[trigger] rows(d2) by {
        lemma_sum_nonneg(TIMESLOT_COUNT as int, row(d2));
    }
    lemma_professor_slot(state, constraints, p, d, t);
    assert forall|j: int| 0 <= j < nb implies 0 <= #[trigger] crowded(bucket_slot(state, b, j, d, t)) by {
        lemma_bucket_slot_bounds(state, b, j, d, t);
    }
    lemma_term_le_sum(nb, |j: int| crowded(bucket_slot(state, b, j, d, t)), p);
    lemma_term_le_sum(TIMESLOT_COUNT as int, row(d), t);
    lemma_term_le_sum(DAY_COUNT as int, rows, d);
    assert(rows =~= (|d2: int|
        sum_to(
            TIMESLOT_COUNT as int,
            |t2: int| sum_to(nb, |j: int| crowded(bucket_slot(state, b, j, d2, t2))),
        )));
}

/// The professor penalty adds up, over the cells of the week and the professors, the
/// sessions of each professor in each cell where that professor teaches two or more.
pub proof fn lemma_professor_penalty_by_loads(state: ClassCalendar, constraints: OptimizationConstraints)
    ensures
        same_professor_penalty(state, constraints) == sum_to(
            DAY_COUNT as int,
            |d: int|
                sum_to(
                    TIMESLOT_COUNT as int,
                    |t: int|
                        sum_to(
                            constraints.professors@.len() as int,
                            |p: int| crowded(professor_load(state, constraints, p, d, t)),
                        ),
                ),
        ),
{
    let b = professor_buckets(state, constraints);
    let nb = constraints.professors@.len() as int;
    let row1 = |d: int| (|t: int| sum_to(nb, |j: int| crowded(bucket_slot(state, b, j, d, t))));
    let row2 = |d: int| (|t: int| sum_to(nb, |p: int| crowded(professor_load(state, constraints, p, d, t))));
    assert forall|d: int| 0 <= d < DAY_COUNT implies #[trigger] sum_to(TIMESLOT_COUNT as int, row1(d)) == sum_to(
        TIMESLOT_COUNT as int,
        row2(d),
    ) by {
        assert forall|t: int| 0 <= t < TIMESLOT_COUNT implies #[trigger] row1(d)(t) == row2(d)(t) by {
            assert forall|j: int| 0 <= j < nb implies #[trigger] crowded(bucket_slot(state, b, j, d, t)) == crowded(
                professor_load(state, constraints, j, d, t),
            ) by {
                lemma_professor_slot(state, constraints, j, d, t);
            }
            lemma_sum_ext(
                nb,
                |j: int| crowded(bucket_slot(state, b, j, d, t)),
                |p: int| crowded(professor_load(state, constraints, p, d, t)),
            );
        }
        lemma_sum_ext(TIMESLOT_COUNT as int, row1(d), row2(d));
    }
    lemma_sum_ext(
        DAY_COUNT as int,
        |d: int| sum_to(TIMESLOT_COUNT as int, row1(d)),
        |d: int| sum_to(TIMESLOT_COUNT as int, row2(d)),
    );
    assert((|d: int| sum_to(TIMESLOT_COUNT as int, row1(d))) =~= (|d: int|
        sum_to(
            TIMESLOT_COUNT as int,
            |t: int| sum_to(nb, |j: int| crowded(bucket_slot(state, b, j, d, t))),
        )));
    assert((|d: int| sum_to(TIMESLOT_COUNT as int, row2(d))) =~= (|d: int|
        sum_to(
            TIMESLOT_COUNT as int,
            |t: int| sum_to(nb, |p: int| crowded(professor_load(state, constraints, p, d, t))),
        )));
}

} // verus!
