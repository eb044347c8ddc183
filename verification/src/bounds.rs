//! Upper bounds of the penalties in terms of the size of the calendar: the number of
//! sessions, of classes and of professors.
use vstd::prelude::*;

use crate::annealing::{weighted_penalty, MAX_SESSION_LENGTH, MIN_SESSION_LENGTH};
use crate::class_calendar::ClassCalendar;
use crate::classroom_assignment::{cell_capacity, week_capacity};
use crate::constraints::{Availability, OptimizationConstraints, SEMESTER_COUNT};
use crate::day_penalties::{
    availability_at, availability_penalty, class_inconsistency, class_lab_spread, class_session_faults,
    days_at_timeslot, day_used, gap_penalty, inconsistency_penalty, lab_penalty, presence,
    semester_holes_penalty, semester_presence, session_length_penalty,
};
use crate::rows::{has_gap, holes, outside_length, run_len, run_start, runs_outside};
use crate::heuristics::{professor_buckets, professors_known, same_professor_penalty, same_semester_penalty, semester_buckets, lemma_same_timeslot_penalty_nonneg, lemma_bucket_penalty_nonneg, bucket_penalty, bucket_slot, crowded, lemma_bucket_slot_bounds, same_timeslot_penalty, slot_total};
use crate::sums::{count_to, lemma_count_bounds, lemma_sum_bounds, lemma_sum_ext, lemma_sum_le, lemma_sum_nonneg, lemma_sum_scale, sum_to};
use crate::week_calendar::{DAY_COUNT, TIMESLOT_COUNT};

verus! {

/// The sessions of a cell are never negative in number.
proof fn lemma_slot_total_nonneg(state: ClassCalendar, d: int, t: int)
    ensures
        0 <= slot_total(state, d, t),
{
    lemma_sum_nonneg(state.num_classes() as int, |k: int| state.count(k, d, t));
}

/// Over the week, the sessions of all cells add up to the number of sessions.
proof fn lemma_week_total(state: ClassCalendar)
    requires
        state.wf(),
    ensures
        sum_to(DAY_COUNT as int, |d: int| sum_to(TIMESLOT_COUNT as int, |t: int| slot_total(state, d, t)))
            == state.entries().len(),
{
    state.lemma_sessions_total();
    let lhs = |d: int| sum_to(TIMESLOT_COUNT as int, |t: int| slot_total(state, d, t));
    let rhs = |d: int|
        sum_to(
            TIMESLOT_COUNT as int,
            |t: int| sum_to(state.num_classes() as int, |k: int| state.count(k, d, t)),
        );
    assert forall|d: int| #[trigger] lhs(d) == rhs(d) by {
        lemma_sum_ext(
            TIMESLOT_COUNT as int,
            |t: int| slot_total(state, d, t),
            |t: int| sum_to(state.num_classes() as int, |k: int| state.count(k, d, t)),
        );
    }
    assert(lhs =~= rhs);
}

/// The crowded-cell penalty is at most the number of sessions.
pub proof fn lemma_same_timeslot_bound(state: ClassCalendar)
    requires
        state.wf(),
    ensures
        same_timeslot_penalty(state) <= state.entries().len(),
{
    let crowded_row = |d: int| sum_to(TIMESLOT_COUNT as int, |t: int| crowded(slot_total(state, d, t)));
    let total_row = |d: int| sum_to(TIMESLOT_COUNT as int, |t: int| slot_total(state, d, t));
    assert forall|d: int| 0 <= d < DAY_COUNT implies #[trigger] crowded_row(d) <= total_row(d) by {
        assert forall|t: int| 0 <= t < TIMESLOT_COUNT implies crowded(slot_total(state, d, t)) <= slot_total(
            state,
            d,
            t,
        ) by {
            lemma_slot_total_nonneg(state, d, t);
        }
        lemma_sum_le(
            TIMESLOT_COUNT as int,
            |t: int| crowded(slot_total(state, d, t)),
            |t: int| slot_total(state, d, t),
        );
    }
    lemma_sum_le(DAY_COUNT as int, crowded_row, total_row);
    lemma_week_total(state);
}

/// The crowded-bucket penalty over `nb` buckets is at most `nb` times the number of
/// sessions.
pub proof fn lemma_bucket_bound(state: ClassCalendar, b: Seq<usize>, nb: int)
    requires
        state.wf(),
        0 <= nb,
    ensures
        bucket_penalty(state, b, nb) <= nb * state.entries().len(),
{
    let row = |d: int| (|t: int| sum_to(nb, |j: int| crowded(bucket_slot(state, b, j, d, t))));
    let rows = |d: int| sum_to(TIMESLOT_COUNT as int, row(d));
    let total_row = |d: int| sum_to(TIMESLOT_COUNT as int, |t: int| slot_total(state, d, t));
    assert forall|d: int| 0 <= d < DAY_COUNT implies #[trigger] rows(d) <= nb * total_row(d) by {
        assert forall|t: int| 0 <= t < TIMESLOT_COUNT implies #[trigger] row(d)(t) <= nb * slot_total(
            state,
            d,
            t,
        ) by {
            assert forall|j: int| 0 <= j < nb implies 0 <= #[trigger] crowded(bucket_slot(state, b, j, d, t))
                <= slot_total(state, d, t) by {
                lemma_bucket_slot_bounds(state, b, j, d, t);
            }
            lemma_sum_bounds(nb, |j: int| crowded(bucket_slot(state, b, j, d, t)), slot_total(state, d, t));
        }
        let f = |t: int| slot_total(state, d, t);
        lemma_sum_le(TIMESLOT_COUNT as int, row(d), |i: int| nb * f(i));
        lemma_sum_scale(TIMESLOT_COUNT as int, f, nb);
    }
    lemma_sum_le(DAY_COUNT as int, rows, |i: int| nb * total_row(i));
    lemma_sum_scale(DAY_COUNT as int, total_row, nb);
    lemma_week_total(state);
    assert(rows =~= (|d: int|
        sum_to(
            TIMESLOT_COUNT as int,
            |t: int| sum_to(nb, |j: int| crowded(bucket_slot(state, b, j, d, t))),
        )));
}

/// The penalties counted per class, day and timeslot are bounded by the number of
/// classes times the number of cells they range over; the penalty for semester holes
/// by the number of semesters times the cells of the week.
pub proof fn lemma_day_penalty_bounds(
    state: ClassCalendar,
    constraints: OptimizationConstraints,
    min: int,
    max: int,
)
    ensures
        0 <= session_length_penalty(state, min, max) <= 60 * state.num_classes(),
        0 <= gap_penalty(state) <= 5 * state.num_classes(),
        forall|a: Availability| 0 <= #[trigger] availability_penalty(state, constraints, a) <= 60 * state.num_classes(),
        0 <= inconsistency_penalty(state) <= 12 * state.num_classes(),
        0 <= lab_penalty(state, constraints) <= 4 * state.num_classes(),
        0 <= semester_holes_penalty(state, constraints) <= 480,
{
    let n = state.num_classes() as int;
    // sessions of the wrong length
    assert forall|k: int| 0 <= k < n implies 0 <= #[trigger] class_session_faults(state, k, min, max) <= 60 by {
        assert forall|d: int| 0 <= d < DAY_COUNT implies 0 <= #[trigger] runs_outside(presence(state, k, d), min, max)
            <= 12 by {
            let row = presence(state, k, d);
            lemma_count_bounds(
                row.len() as int,
                |i: int| run_start(row, i) && outside_length(run_len(row, i), min, max),
            );
        }
        lemma_sum_bounds(DAY_COUNT as int, |d: int| runs_outside(presence(state, k, d), min, max), 12);
    }
    lemma_sum_bounds(n, |k: int| class_session_faults(state, k, min, max), 60);
    // broken days
    let broken = |k: int| count_to(DAY_COUNT as int, |d: int| has_gap(presence(state, k, d)));
    assert forall|k: int| 0 <= k < n implies 0 <= #[trigger] broken(k) <= 5 by {
        lemma_count_bounds(DAY_COUNT as int, |d: int| has_gap(presence(state, k, d)));
    }
    lemma_sum_bounds(n, broken, 5);
    assert(broken =~= (|k: int| count_to(DAY_COUNT as int, |d: int| has_gap(presence(state, k, d)))));
    // availability
    assert forall|a: Availability| 0 <= #[trigger] availability_penalty(state, constraints, a) <= 60 * n by {
        let inner = |k: int|
            (|d: int|
                count_to(
                    TIMESLOT_COUNT as int,
                    |t: int| state.count(k, d, t) > 0 && availability_at(constraints, k, d, t) == a,
                ));
        let outer = |k: int| sum_to(DAY_COUNT as int, inner(k));
        assert forall|k: int| 0 <= k < n implies 0 <= #[trigger] outer(k) <= 60 by {
            assert forall|d: int| 0 <= d < DAY_COUNT implies 0 <= #[trigger] inner(k)(d) <= 12 by {
                lemma_count_bounds(
                    TIMESLOT_COUNT as int,
                    |t: int| state.count(k, d, t) > 0 && availability_at(constraints, k, d, t) == a,
                );
            }
            lemma_sum_bounds(DAY_COUNT as int, inner(k), 12);
        }
        lemma_sum_bounds(n, outer, 60);
        assert(outer =~= (|k: int|
            sum_to(
                DAY_COUNT as int,
                |d: int|
                    count_to(
                        TIMESLOT_COUNT as int,
                        |t: int| state.count(k, d, t) > 0 && availability_at(constraints, k, d, t) == a,
                    ),
            )));
    }
    // timeslots kept on one day only
    assert forall|k: int| 0 <= k < n implies 0 <= #[trigger] class_inconsistency(state, k) <= 12 by {
        lemma_count_bounds(TIMESLOT_COUNT as int, |t: int| days_at_timeslot(state, k, t) == 1);
    }
    lemma_sum_bounds(n, |k: int| class_inconsistency(state, k), 12);
    // laboratories over several days
    assert forall|k: int| 0 <= k < n implies 0 <= #[trigger] class_lab_spread(state, constraints, k) <= 4 by {
        lemma_count_bounds(DAY_COUNT as int, |d: int| day_used(state, k, d));
    }
    lemma_sum_bounds(n, |k: int| class_lab_spread(state, constraints, k), 4);
    // holes in a semester's days
    let sem_day = |j: int| (|d: int| holes(semester_presence(state, constraints, j + 1, d)));
    let sem = |j: int| sum_to(DAY_COUNT as int, sem_day(j));
    assert forall|j: int| 0 <= j < SEMESTER_COUNT implies 0 <= #[trigger] sem(j) <= 60 by {
        assert forall|d: int| 0 <= d < DAY_COUNT implies 0 <= #[trigger] sem_day(j)(d) <= 12 by {
            let row = semester_presence(state, constraints, j + 1, d);
            lemma_count_bounds(
                row.len() as int,
                |t: int|
                    !row[t] && (exists|a: int| 0 <= a < t && row[a]) && (exists|b: int| t < b < row.len() && row[b]),
            );
        }
        lemma_sum_bounds(DAY_COUNT as int, sem_day(j), 12);
    }
    lemma_sum_bounds(SEMESTER_COUNT as int, sem, 60);
    assert(sem =~= (|j: int|
        sum_to(DAY_COUNT as int, |d: int| holes(semester_presence(state, constraints, j + 1, d)))));
}

/// The largest number of sessions, of classes and of professors for which the
/// weighted penalty of a calendar is known to fit in 64 bits.
pub const SIZE_LIMIT: usize = 0x100_0000;

/// The calendar and its constraints are within `SIZE_LIMIT` sessions, classes and
/// professors.
pub open spec fn within_size_limit(state: ClassCalendar, constraints: OptimizationConstraints) -> bool {
    &&& state.entries().len() <= SIZE_LIMIT
    &&& state.num_classes() <= SIZE_LIMIT
    &&& constraints.professors@.len() <= SIZE_LIMIT
}

/// The sessions that can get a room are never negative in number.
proof fn lemma_week_capacity_nonneg(state: ClassCalendar, constraints: OptimizationConstraints)
    ensures
        0 <= week_capacity(state, constraints),
{
    let row = |d: int| (|t: int| cell_capacity(state, constraints, d, t));
    let rows = |d: int| sum_to(TIMESLOT_COUNT as int, row(d));
    assert forall|d: int| 0 <= d < DAY_COUNT implies 0 <= #[trigger] rows(d) by {
        lemma_sum_nonneg(TIMESLOT_COUNT as int, row(d));
    }
    lemma_sum_nonneg(DAY_COUNT as int, rows);
    assert(rows =~= (|d: int| sum_to(TIMESLOT_COUNT as int, |t: int| cell_capacity(state, constraints, d, t))));
}

/// Within the size limit, every penalty and their weighted sum fit in 64 bits.
pub proof fn lemma_weighted_penalty_bound(state: ClassCalendar, constraints: OptimizationConstraints)
    requires
        professors_known(state, constraints),
        within_size_limit(state, constraints),
    ensures
        weighted_penalty(state, constraints) <= u64::MAX,
        same_timeslot_penalty(state) <= u64::MAX,
        same_professor_penalty(state, constraints) <= u64::MAX,
        same_semester_penalty(state, constraints) <= u64::MAX,
        session_length_penalty(state, MIN_SESSION_LENGTH as int, MAX_SESSION_LENGTH as int) <= u64::MAX,
        gap_penalty(state) <= u64::MAX,
        availability_penalty(state, constraints, Availability::NotAvailable) <= u64::MAX,
        availability_penalty(state, constraints, Availability::AvailableIfNeeded) <= u64::MAX,
        inconsistency_penalty(state) <= u64::MAX,
        lab_penalty(state, constraints) <= u64::MAX,
{
    let e = state.entries().len() as int;
    let n = state.num_classes() as int;
    let p = constraints.professors@.len() as int;
    lemma_same_timeslot_bound(state);
    lemma_same_timeslot_penalty_nonneg(state);
    lemma_bucket_bound(state, professor_buckets(state, constraints), p);
    lemma_bucket_penalty_nonneg(state, professor_buckets(state, constraints), p);
    lemma_bucket_bound(state, semester_buckets(state, constraints), SEMESTER_COUNT as int);
    lemma_bucket_penalty_nonneg(state, semester_buckets(state, constraints), SEMESTER_COUNT as int);
    lemma_day_penalty_bounds(state, constraints, MIN_SESSION_LENGTH as int, MAX_SESSION_LENGTH as int);
    assert(0 <= availability_penalty(state, constraints, Availability::NotAvailable) <= 60 * n);
    assert(0 <= availability_penalty(state, constraints, Availability::AvailableIfNeeded) <= 60 * n);
    lemma_week_capacity_nonneg(state, constraints);
    assert(p * e <= 0x1_0000_0000_0000) by (nonlinear_arith)
        requires
            0 <= p <= 0x100_0000,
            0 <= e <= 0x100_0000,
    ;
    assert(same_professor_penalty(state, constraints) <= p * e);
    assert(same_semester_penalty(state, constraints) <= 8 * e);
    assert(state.entries().len() - week_capacity(state, constraints) <= e);
}

} // verus!
