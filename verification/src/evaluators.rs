//! Measures of a calendar of sessions: free timeslots inside the school day, sessions
//! outside waking hours, and classes split into several blocks on a day.
use vstd::prelude::*;

use crate::registers::{semester_index, MetadataRegister};
use crate::rows::{count_holes, count_runs_outside, holes, outside_length, run_len, run_start, runs_outside};
use crate::session_calendar::{session_at, CalendarState, ClassSchedule, Session};
use crate::sums::{count_to, lemma_count_ext, lemma_sum_le, lemma_sum_monotone, lemma_sum_nonneg, lemma_term_le_sum, sum_to};
use crate::week_calendar::{cell_index, lemma_cell_index_bijective, DAY_COUNT, TIMESLOT_COUNT};

verus! {

/// For each timeslot of day `d`, whether some class has a session there.
pub open spec fn day_row(state: CalendarState, d: int) -> Seq<bool> {
    Seq::new(TIMESLOT_COUNT as nat, |t: int| exists|c: usize| state.count(#[trigger] session_at(c, d, t)) > 0)
}

/// Over the days, the free timeslots between the first and the last busy one.
pub open spec fn gap_total(state: CalendarState) -> int {
    sum_to(DAY_COUNT as int, |d: int| holes(day_row(state, d)))
}

/// Counts, day by day, the free timeslots that lie between the first and the last
/// timeslot where some class has a session.
pub fn gap_count(state: &CalendarState) -> (r: u64)
    requires
        state.wf(),
    ensures
        r == gap_total(*state),
{
    let matrix = state.get_schedule_matrix();
    let ghost f = |d: int| holes(day_row(*state, d));
    let mut total: u64 = 0;
    let mut d: usize = 0;
    while d < DAY_COUNT
        invariant
            state.wf(),
            matrix@.len() == DAY_COUNT * TIMESLOT_COUNT,
            forall|i: int| 0 <= i < DAY_COUNT * TIMESLOT_COUNT ==> (#[trigger] matrix@[i]).wf(),
            forall|c: usize, d2: int, t: int|
                0 <= d2 < DAY_COUNT && 0 <= t < TIMESLOT_COUNT ==> #[trigger] matrix@[cell_index(d2, t)].count(c)
                    == state.count(session_at(c, d2, t)),
            f == (|d2: int| holes(day_row(*state, d2))),
            d <= DAY_COUNT,
            total == sum_to(d as int, f),
            total <= TIMESLOT_COUNT * d,
        decreases DAY_COUNT - d,
    {
        let mut row: Vec<bool> = Vec::new();
        let mut t: usize = 0;
        while t < TIMESLOT_COUNT
            invariant
                state.wf(),
                d < DAY_COUNT,
                matrix@.len() == DAY_COUNT * TIMESLOT_COUNT,
                forall|i: int| 0 <= i < DAY_COUNT * TIMESLOT_COUNT ==> (#[trigger] matrix@[i]).wf(),
                forall|c: usize, d2: int, t2: int|
                    0 <= d2 < DAY_COUNT && 0 <= t2 < TIMESLOT_COUNT ==> #[trigger] matrix@[cell_index(d2, t2)].count(c)
                        == state.count(session_at(c, d2, t2)),
                t <= TIMESLOT_COUNT,
                row@.len() == t,
                forall|j: int| 0 <= j < t ==> #[trigger] row@[j] == day_row(*state, d as int)[j],
            decreases TIMESLOT_COUNT - t,
        {
            proof {
                lemma_cell_index_bijective(d as int, t as int, d as int, t as int);
            }
            let cell = &matrix[d * TIMESLOT_COUNT + t];
            let busy = !cell.is_empty();
            proof {
                let ghost cell_i = cell_index(d as int, t as int);
                assert(cell_i == d * TIMESLOT_COUNT + t);
                cell.lemma_wf();
                if busy {
                    let c = cell.key_seq()[0];
                    assert(cell.key_seq().contains(c));
                    assert(matrix@[cell_index(d as int, t as int)].count(c) == state.count(session_at(c, d as int, t as int)));
                    assert(state.count(session_at(c, d as int, t as int)) > 0);
                } else {
                    assert forall|c: usize| !(state.count(#[trigger] session_at(c, d as int, t as int)) > 0) by {
                        assert(matrix@[cell_index(d as int, t as int)].count(c) == state.count(session_at(c, d as int, t as int)));
                    }
                }
            }
            row.push(busy);
            t = t + 1;
        }
        proof {
            assert(row@ =~= day_row(*state, d as int));
        }
        let h = count_holes(&row);
        assert(sum_to(d + 1, f) == sum_to(d as int, f) + f(d as int));
        total = total + h;
        d = d + 1;
    }
    total
}

/// The sessions whose timeslot is before `wake_up_time` or from `sleep_time` on.
pub open spec fn outside_hours(s: Session, wake_up_time: int, sleep_time: int) -> bool {
    s.t.timeslot < wake_up_time || s.t.timeslot >= sleep_time
}

/// The number of sessions outside the waking hours `wake_up_time..sleep_time`.
pub open spec fn night_total(state: CalendarState, wake_up_time: int, sleep_time: int) -> int {
    sum_to(
        state.sessions().len() as int,
        |i: int|
            if outside_hours(state.sessions()[i], wake_up_time, sleep_time) {
                state.count(state.sessions()[i]) as int
            } else {
                0
            },
    )
}

/// Counts the sessions that fall before `wake_up_time` or from `sleep_time` on.
pub fn daylight_count(state: &CalendarState, wake_up_time: usize, sleep_time: usize) -> (r: usize)
    requires
        state.wf(),
    ensures
        r == night_total(*state, wake_up_time as int, sleep_time as int),
{
    let sessions = state.get_session_set();
    let entries = sessions.iter();
    proof {
        sessions.lemma_total_is_sum();
        sessions.lemma_wf();
    }
    let ghost keys = state.sessions();
    let ghost n = keys.len() as int;
    let ghost all = |i: int| sessions.count(keys[i]) as int;
    let ghost night = |i: int|
        if outside_hours(keys[i], wake_up_time as int, sleep_time as int) {
            state.count(keys[i]) as int
        } else {
            0
        };
    proof {
        assert(all =~= (|i: int| sessions.count(sessions.key_seq()[i]) as int));
        assert forall|i: int| 0 <= i < n implies #[trigger] night(i) <= all(i) by {}
        assert forall|i: int| 0 <= i < n implies 0 <= #[trigger] all(i) by {}
    }
    let mut total: usize = 0;
    let mut i: usize = 0;
    while i < entries.len()
        invariant
            entries@.len() == n,
            keys == sessions.key_seq(),
            forall|j: int| 0 <= j < n ==> (#[trigger] entries@[j]).0 == keys[j] && entries@[j].1 == sessions.count(keys[j]),
            forall|s: Session| #[trigger] sessions.count(s) == state.count(s),
            sum_to(n, all) == sessions.total(),
            sessions.total() <= usize::MAX,
            forall|j: int| 0 <= j < n ==> #[trigger] night(j) <= all(j),
            forall|j: int| 0 <= j < n ==> 0 <= #[trigger] all(j),
            night == (|j: int|
                if outside_hours(keys[j], wake_up_time as int, sleep_time as int) {
                    state.count(keys[j]) as int
                } else {
                    0
                }),
            all == (|j: int| sessions.count(keys[j]) as int),
            i <= n,
            total == sum_to(i as int, night),
        decreases n - i,
    {
        let (s, c) = entries[i];
        proof {
            lemma_sum_le(i + 1, night, all);
            lemma_sum_monotone(i + 1, n, all);
            assert(sum_to(i + 1, night) == sum_to(i as int, night) + night(i as int));
        }
        if s.t.timeslot < wake_up_time || s.t.timeslot >= sleep_time {
            total = total + c;
        }
        i = i + 1;
    }
    proof {
        assert(night =~= (|j: int|
            if outside_hours(state.sessions()[j], wake_up_time as int, sleep_time as int) {
                state.count(state.sessions()[j]) as int
            } else {
                0
            }));
    }
    total
}

/// For each timeslot of day `d`, whether class `c` has a session there.
pub open spec fn class_day_row(state: CalendarState, c: usize, d: int) -> Seq<bool> {
    Seq::new(TIMESLOT_COUNT as nat, |t: int| state.count(session_at(c, d, t)) > 0)
}

/// The blocks of consecutive busy timeslots of a row.
pub open spec fn busy_runs(row: Seq<bool>) -> int {
    count_to(row.len() as int, |i: int| run_start(row, i))
}

/// The blocks of a row beyond the first.
pub open spec fn extra_runs(row: Seq<bool>) -> int {
    if busy_runs(row) > 0 {
        busy_runs(row) - 1
    } else {
        0
    }
}

/// Over the classes with a schedule and the days, the blocks of sessions of the class
/// that day beyond the first.
pub open spec fn separation_total(state: CalendarState) -> int {
    sum_to(
        state.class_ids().len() as int,
        |i: int| sum_to(DAY_COUNT as int, |d: int| extra_runs(class_day_row(state, state.class_ids()[i], d))),
    )
}

/// Counts, for every class with a schedule and every day, how many blocks of
/// consecutive sessions the class has that day beyond the first.
pub fn class_separation_count(state: &CalendarState) -> (r: u128)
    requires
        state.wf(),
    ensures
        r == separation_total(*state),
{
    let schedules = state.get_class_schedules();
    let ghost ids = state.class_ids();
    let ghost per_class = |i: int| sum_to(DAY_COUNT as int, |d: int| extra_runs(class_day_row(*state, ids[i], d)));
    proof {
        assert(schedules@.len() == ids.len());
    }
    let mut total: u128 = 0;
    let mut i: usize = 0;
    while i < schedules.len()
        invariant
            state.wf(),
            ids == state.class_ids(),
            schedules@.map_values(|cs: ClassSchedule| cs.class_id) == ids,
            forall|k: int| 0 <= k < schedules@.len() ==> (#[trigger] schedules@[k]).counts@.len() == DAY_COUNT * TIMESLOT_COUNT,
            forall|k: int, d2: int, t: int|
                0 <= k < schedules@.len() && 0 <= d2 < DAY_COUNT && 0 <= t < TIMESLOT_COUNT ==> #[trigger] schedules@[k].counts@[cell_index(
                    d2,
                    t,
                )] == state.count(session_at(schedules@[k].class_id, d2, t)),
            per_class == (|k: int| sum_to(DAY_COUNT as int, |d: int| extra_runs(class_day_row(*state, ids[k], d)))),
            i <= schedules@.len(),
            total == sum_to(i as int, per_class),
            total <= 60 * i,
        decreases schedules@.len() - i,
    {
        let schedule = &schedules[i];
        let ghost c = schedule.class_id;
        let ghost per_day = |d: int| extra_runs(class_day_row(*state, c, d));
        proof {
            assert(ids[i as int] == c);
        }
        let mut class_total: u128 = 0;
        let mut d: usize = 0;
        while d < DAY_COUNT
            invariant
                schedule.counts@.len() == DAY_COUNT * TIMESLOT_COUNT,
                forall|d2: int, t: int|
                    0 <= d2 < DAY_COUNT && 0 <= t < TIMESLOT_COUNT ==> #[trigger] schedule.counts@[cell_index(d2, t)]
                        == state.count(session_at(c, d2, t)),
                per_day == (|d2: int| extra_runs(class_day_row(*state, c, d2))),
                d <= DAY_COUNT,
                class_total == sum_to(d as int, per_day),
                class_total <= 12 * d,
            decreases DAY_COUNT - d,
        {
            let mut row: Vec<bool> = Vec::new();
            let mut t: usize = 0;
            while t < TIMESLOT_COUNT
                invariant
                    schedule.counts@.len() == DAY_COUNT * TIMESLOT_COUNT,
                    forall|d2: int, t2: int|
                        0 <= d2 < DAY_COUNT && 0 <= t2 < TIMESLOT_COUNT ==> #[trigger] schedule.counts@[cell_index(d2, t2)]
                            == state.count(session_at(c, d2, t2)),
                    d < DAY_COUNT,
                    t <= TIMESLOT_COUNT,
                    row@.len() == t,
                    forall|j: int| 0 <= j < t ==> #[trigger] row@[j] == class_day_row(*state, c, d as int)[j],
                decreases TIMESLOT_COUNT - t,
            {
                proof {
                    lemma_cell_index_bijective(d as int, t as int, d as int, t as int);
                    assert(cell_index(d as int, t as int) == d * TIMESLOT_COUNT + t);
                }
                row.push(schedule.counts[d * TIMESLOT_COUNT + t] > 0);
                t = t + 1;
            }
            proof {
                assert(row@ =~= class_day_row(*state, c, d as int));
                lemma_count_ext(
                    row@.len() as int,
                    |j: int| run_start(row@, j) && outside_length(run_len(row@, j), 1, 0),
                    |j: int| run_start(row@, j),
                );
            }
            let runs = count_runs_outside(&row, 1, 0);
            let extra: u128 = if runs > 0 {
                (runs - 1) as u128
            } else {
                0
            };
            assert(sum_to(d + 1, per_day) == sum_to(d as int, per_day) + per_day(d as int));
            class_total = class_total + extra;
            d = d + 1;
        }
        assert(sum_to(i + 1, per_class) == sum_to(i as int, per_class) + per_class(i as int));
        proof {
            assert(per_class(i as int) == sum_to(DAY_COUNT as int, per_day)) by {
                assert(per_day =~= (|d2: int| extra_runs(class_day_row(*state, ids[i as int], d2))));
            }
        }
        total = total + class_total;
        i = i + 1;
    }
    proof {
        assert(per_class =~= (|k: int|
            sum_to(DAY_COUNT as int, |d: int| extra_runs(class_day_row(*state, state.class_ids()[k], d)))));
    }
    total
}

/// `row` with every timeslot flipped between busy and free.
pub open spec fn flipped(row: Seq<bool>) -> Seq<bool> {
    Seq::new(row.len(), |i: int| !row[i])
}

/// The blocks of a row, busy ones and free ones alike, whose length lies outside
/// `min..=max`.
pub open spec fn block_faults(row: Seq<bool>, min: int, max: int) -> int {
    runs_outside(row, min, max) + runs_outside(flipped(row), min, max)
}

/// Over the classes with a schedule and the days, the blocks of the class's day
/// (busy and free) whose length lies outside `min..=max`.
pub open spec fn block_length_total(state: CalendarState, min: int, max: int) -> int {
    sum_to(
        state.class_ids().len() as int,
        |i: int| sum_to(DAY_COUNT as int, |d: int| block_faults(class_day_row(state, state.class_ids()[i], d), min, max)),
    )
}

/// A length of at most 254 lies outside `min..=max` exactly when it lies outside the
/// bounds cut down to 254.
proof fn lemma_outside_capped(len: int, min: int, max: int)
    requires
        0 <= len <= 254,
        0 <= min,
        0 <= max,
    ensures
        outside_length(len, min, max) == outside_length(
            len,
            if min > 254 { 255int } else { min },
            if max > 254 { 254int } else { max },
        ),
{
}

/// Counts, for every class with a schedule and every day, the blocks of consecutive
/// busy timeslots and of consecutive free timeslots whose length is below `min_len`
/// or above `max_len`.
pub fn session_length_limits_count(state: &CalendarState, min_len: usize, max_len: usize) -> (r: u128)
    requires
        state.wf(),
    ensures
        r == block_length_total(*state, min_len as int, max_len as int),
{
    let min: u8 = if min_len > 254 { 255 } else { min_len as u8 };
    let max: u8 = if max_len > 254 { 254 } else { max_len as u8 };
    let schedules = state.get_class_schedules();
    let ghost ids = state.class_ids();
    let ghost per_class = |i: int|
        sum_to(DAY_COUNT as int, |d: int| block_faults(class_day_row(*state, ids[i], d), min_len as int, max_len as int));
    let mut total: u128 = 0;
    let mut i: usize = 0;
    while i < schedules.len()
        invariant
            state.wf(),
            ids == state.class_ids(),
            schedules@.map_values(|cs: ClassSchedule| cs.class_id) == ids,
            forall|k: int| 0 <= k < schedules@.len() ==> (#[trigger] schedules@[k]).counts@.len() == DAY_COUNT * TIMESLOT_COUNT,
            forall|k: int, d2: int, t: int|
                0 <= k < schedules@.len() && 0 <= d2 < DAY_COUNT && 0 <= t < TIMESLOT_COUNT ==> #[trigger] schedules@[k].counts@[cell_index(
                    d2,
                    t,
                )] == state.count(session_at(schedules@[k].class_id, d2, t)),
            per_class == (|k: int|
                sum_to(
                    DAY_COUNT as int,
                    |d: int| block_faults(class_day_row(*state, ids[k], d), min_len as int, max_len as int),
                )),
            min == (if min_len > 254 { 255 } else { min_len }),
            max == (if max_len > 254 { 254 } else { max_len }),
            i <= schedules@.len(),
            total == sum_to(i as int, per_class),
            total <= 120 * i,
        decreases schedules@.len() - i,
    {
        let schedule = &schedules[i];
        let ghost c = schedule.class_id;
        let ghost per_day = |d: int| block_faults(class_day_row(*state, c, d), min_len as int, max_len as int);
        proof {
            assert(ids[i as int] == c);
        }
        let mut class_total: u128 = 0;
        let mut d: usize = 0;
        while d < DAY_COUNT
            invariant
                schedule.counts@.len() == DAY_COUNT * TIMESLOT_COUNT,
                forall|d2: int, t: int|
                    0 <= d2 < DAY_COUNT && 0 <= t < TIMESLOT_COUNT ==> #[trigger] schedule.counts@[cell_index(d2, t)]
                        == state.count(session_at(c, d2, t)),
                per_day == (|d2: int| block_faults(class_day_row(*state, c, d2), min_len as int, max_len as int)),
                min == (if min_len > 254 { 255 } else { min_len }),
                max == (if max_len > 254 { 254 } else { max_len }),
                d <= DAY_COUNT,
                class_total == sum_to(d as int, per_day),
                class_total <= 24 * d,
            decreases DAY_COUNT - d,
        {
            let mut row: Vec<bool> = Vec::new();
            let mut free: Vec<bool> = Vec::new();
            let mut t: usize = 0;
            while t < TIMESLOT_COUNT
                invariant
                    schedule.counts@.len() == DAY_COUNT * TIMESLOT_COUNT,
                    forall|d2: int, t2: int|
                        0 <= d2 < DAY_COUNT && 0 <= t2 < TIMESLOT_COUNT ==> #[trigger] schedule.counts@[cell_index(d2, t2)]
                            == state.count(session_at(c, d2, t2)),
                    d < DAY_COUNT,
                    t <= TIMESLOT_COUNT,
                    row@.len() == t,
                    free@.len() == t,
                    forall|j: int| 0 <= j < t ==> #[trigger] row@[j] == class_day_row(*state, c, d as int)[j],
                    forall|j: int| 0 <= j < t ==> #[trigger] free@[j] == !row@[j],
                decreases TIMESLOT_COUNT - t,
            {
                proof {
                    lemma_cell_index_bijective(d as int, t as int, d as int, t as int);
                    assert(cell_index(d as int, t as int) == d * TIMESLOT_COUNT + t);
                }
                let busy = schedule.counts[d * TIMESLOT_COUNT + t] > 0;
                row.push(busy);
                free.push(!busy);
                t = t + 1;
            }
            let ghost r = class_day_row(*state, c, d as int);
            proof {
                assert(row@ =~= r);
                assert(free@ =~= flipped(r));
                lemma_capped_runs(row@, min_len as int, max_len as int);
                lemma_capped_runs(free@, min_len as int, max_len as int);
            }
            let busy_faults = count_runs_outside(&row, min, max);
            let free_faults = count_runs_outside(&free, min, max);
            assert(sum_to(d + 1, per_day) == sum_to(d as int, per_day) + per_day(d as int));
            class_total = class_total + busy_faults as u128 + free_faults as u128;
            d = d + 1;
        }
        assert(sum_to(i + 1, per_class) == sum_to(i as int, per_class) + per_class(i as int));
        proof {
            assert(per_class(i as int) == sum_to(DAY_COUNT as int, per_day)) by {
                assert(per_day =~= (|d2: int| block_faults(class_day_row(*state, ids[i as int], d2), min_len as int, max_len as int)));
            }
        }
        total = total + class_total;
        i = i + 1;
    }
    proof {
        assert(per_class =~= (|k: int|
            sum_to(
                DAY_COUNT as int,
                |d: int| block_faults(class_day_row(*state, state.class_ids()[k], d), min_len as int, max_len as int),
            )));
    }
    total
}

/// On a row of the day, runs outside the bounds are the same with the bounds cut down
/// to what a row of the day can hold.
proof fn lemma_capped_runs(row: Seq<bool>, min: int, max: int)
    requires
        row.len() == TIMESLOT_COUNT,
        0 <= min,
        0 <= max,
    ensures
        runs_outside(row, min, max) == runs_outside(
            row,
            if min > 254 { 255int } else { min },
            if max > 254 { 254int } else { max },
        ),
{
    let cmin = if min > 254 { 255int } else { min };
    let cmax = if max > 254 { 254int } else { max };
    let p = |i: int| run_start(row, i) && outside_length(run_len(row, i), min, max);
    let q = |i: int| run_start(row, i) && outside_length(run_len(row, i), cmin, cmax);
    assert forall|i: int| 0 <= i < row.len() implies #[trigger] p(i) == q(i) by {
        lemma_run_len_bounds(row, i);
        lemma_outside_capped(run_len(row, i), min, max);
    }
    lemma_count_ext(
        row.len() as int,
        |i: int| run_start(row, i) && outside_length(run_len(row, i), min, max),
        |i: int| run_start(row, i) && outside_length(run_len(row, i), cmin, cmax),
    );
}

/// A run is never longer than the row.
proof fn lemma_run_len_bounds(row: Seq<bool>, i: int)
    ensures
        0 <= run_len(row, i),
        0 <= i ==> run_len(row, i) <= row.len() - i || run_len(row, i) == 0,
    decreases row.len() - i,
{
    if 0 <= i < row.len() && row[i] {
        lemma_run_len_bounds(row, i + 1);
    }
}

/// Number of sessions on day `d`.
pub open spec fn day_total(state: CalendarState, d: int) -> int {
    sum_to(TIMESLOT_COUNT as int, |t: int| state.cell_total(d, t) as int)
}

/// The largest of `f(0), ..., f(n - 1)` (`f(0)` when `n` is at most 1).
pub open spec fn max_of(n: int, f: spec_fn(int) -> int) -> int
    decreases n,
{
    if n <= 1 {
        f(0)
    } else if max_of(n - 1, f) >= f(n - 1) {
        max_of(n - 1, f)
    } else {
        f(n - 1)
    }
}

/// The smallest of `f(0), ..., f(n - 1)` (`f(0)` when `n` is at most 1).
pub open spec fn min_of(n: int, f: spec_fn(int) -> int) -> int
    decreases n,
{
    if n <= 1 {
        f(0)
    } else if min_of(n - 1, f) <= f(n - 1) {
        min_of(n - 1, f)
    } else {
        f(n - 1)
    }
}

/// The difference between the busiest and the quietest day, in sessions.
pub open spec fn daily_difference(state: CalendarState) -> int {
    max_of(DAY_COUNT as int, |d: int| day_total(state, d)) - min_of(DAY_COUNT as int, |d: int| day_total(state, d))
}

/// The largest value is at least the smallest.
proof fn lemma_min_le_max(n: int, f: spec_fn(int) -> int)
    ensures
        min_of(n, f) <= max_of(n, f),
    decreases n,
{
    if n > 1 {
        lemma_min_le_max(n - 1, f);
    }
}

/// Counts how many more sessions the busiest day has than the quietest one.
pub fn daily_work_difference(state: &CalendarState) -> (r: usize)
    requires
        state.wf(),
    ensures
        r == daily_difference(*state),
{
    let matrix = state.get_schedule_matrix();
    let ghost days = |d: int| day_total(*state, d);
    proof {
        state.lemma_cell_totals();
        assert forall|d: int| 0 <= d < DAY_COUNT implies 0 <= #[trigger] days(d) by {
            lemma_sum_nonneg(TIMESLOT_COUNT as int, |t: int| state.cell_total(d, t) as int);
        }
        assert(days =~= (|d: int| sum_to(TIMESLOT_COUNT as int, |t: int| state.cell_total(d, t) as int)));
    }
    let mut max_sessions: usize = 0;
    let mut min_sessions: usize = usize::MAX;
    let mut d: usize = 0;
    while d < DAY_COUNT
        invariant
            state.wf(),
            matrix@.len() == DAY_COUNT * TIMESLOT_COUNT,
            forall|i: int| 0 <= i < DAY_COUNT * TIMESLOT_COUNT ==> (#[trigger] matrix@[i]).wf(),
            days == (|d2: int| day_total(*state, d2)),
            sum_to(DAY_COUNT as int, days) == state.total(),
            state.total() <= usize::MAX,
            forall|d2: int| 0 <= d2 < DAY_COUNT ==> 0 <= #[trigger] days(d2),
            forall|d2: int, t: int|
                0 <= d2 < DAY_COUNT && 0 <= t < TIMESLOT_COUNT ==> #[trigger] matrix@[cell_index(d2, t)].total()
                    == state.cell_total(d2, t),
            d <= DAY_COUNT,
            d > 0 ==> max_sessions == max_of(d as int, days) && min_sessions == min_of(d as int, days),
            d == 0 ==> max_sessions == 0 && min_sessions == usize::MAX,
        decreases DAY_COUNT - d,
    {
        let ghost cells = |t: int| state.cell_total(d as int, t) as int;
        let mut x: usize = 0;
        let mut t: usize = 0;
        proof {
            lemma_term_le_sum(DAY_COUNT as int, days, d as int);
        }
        while t < TIMESLOT_COUNT
            invariant
                matrix@.len() == DAY_COUNT * TIMESLOT_COUNT,
                forall|d2: int, t2: int|
                    0 <= d2 < DAY_COUNT && 0 <= t2 < TIMESLOT_COUNT ==> #[trigger] matrix@[cell_index(d2, t2)].total()
                        == state.cell_total(d2, t2),
                d < DAY_COUNT,
                cells == (|t2: int| state.cell_total(d as int, t2) as int),
                sum_to(TIMESLOT_COUNT as int, cells) <= usize::MAX,
                t <= TIMESLOT_COUNT,
                x == sum_to(t as int, cells),
            decreases TIMESLOT_COUNT - t,
        {
            proof {
                lemma_cell_index_bijective(d as int, t as int, d as int, t as int);
                assert(cell_index(d as int, t as int) == d * TIMESLOT_COUNT + t);
                assert forall|j: int| 0 <= j < TIMESLOT_COUNT implies 0 <= #[trigger] cells(j) by {}
                lemma_sum_monotone(t + 1, TIMESLOT_COUNT as int, cells);
                assert(sum_to(t + 1, cells) == sum_to(t as int, cells) + cells(t as int));
            }
            x = x + matrix[d * TIMESLOT_COUNT + t].count_total();
            t = t + 1;
        }
        proof {
            assert(days(d as int) == sum_to(TIMESLOT_COUNT as int, cells)) by {
                assert(cells =~= (|t2: int| state.cell_total(d as int, t2) as int));
            }
        }
        if x > max_sessions {
            max_sessions = x;
        }
        if x < min_sessions {
            min_sessions = x;
        }
        d = d + 1;
    }
    proof {
        lemma_min_le_max(DAY_COUNT as int, days);
        assert(days =~= (|d2: int| day_total(*state, d2)));
    }
    max_sessions - min_sessions
}

/// The semester (0 to 7) of class `c`, as its metadata gives it.
pub open spec fn semester_of(meta: MetadataRegister, c: usize) -> int {
    semester_index(meta.classes()[c as int].semester_number)
}

/// A number of sessions of one semester in a cell, beyond the first.
pub open spec fn beyond_first(x: int) -> int {
    if x > 0 {
        x - 1
    } else {
        0
    }
}

/// The sessions in (`d`, `t`) of classes of semester `s`.
pub open spec fn cell_semester_count(state: CalendarState, meta: MetadataRegister, d: int, t: int, s: int) -> int {
    sum_to(
        state.cell_classes(d, t).len() as int,
        |j: int|
            if semester_of(meta, state.cell_classes(d, t)[j]) == s {
                state.count(session_at(state.cell_classes(d, t)[j], d, t)) as int
            } else {
                0
            },
    )
}

/// The sessions in (`d`, `t`) that share the cell with an earlier session of the same
/// semester.
pub open spec fn cell_collisions(state: CalendarState, meta: MetadataRegister, d: int, t: int) -> int {
    sum_to(8, |s: int| beyond_first(cell_semester_count(state, meta, d, t, s)))
}

/// Over the week, the sessions that share their cell with an earlier session of the
/// same semester.
pub open spec fn collision_total(state: CalendarState, meta: MetadataRegister) -> int {
    sum_to(DAY_COUNT as int, |d: int| sum_to(TIMESLOT_COUNT as int, |t: int| cell_collisions(state, meta, d, t)))
}

/// The sessions of the classes of each semester in (`d`, `t`).
fn semester_counts(state: &CalendarState, meta: &MetadataRegister, d: usize, t: usize) -> (r: Vec<usize>)
    requires
        state.wf(),
        d < DAY_COUNT,
        t < TIMESLOT_COUNT,
        forall|c: usize| state.count(#[trigger] session_at(c, d as int, t as int)) > 0 ==> c < meta.classes().len(),
    ensures
        r@.len() == 8,
        forall|s: int| 0 <= s < 8 ==> #[trigger] r@[s] == cell_semester_count(*state, *meta, d as int, t as int, s),
{
    let matrix = state.get_schedule_matrix();
    proof {
        lemma_cell_index_bijective(d as int, t as int, d as int, t as int);
        assert(cell_index(d as int, t as int) == d * TIMESLOT_COUNT + t);
        state.lemma_cell_classes(d as int, t as int);
    }
    let cell = &matrix[d * TIMESLOT_COUNT + t];
    let entries = cell.iter();
    let ghost keys = state.cell_classes(d as int, t as int);
    let ghost all = |x: int| state.count(session_at(keys[x], d as int, t as int)) as int;
    let ghost term = |s2: int|
        (|x: int|
            if semester_of(*meta, keys[x]) == s2 {
                state.count(session_at(keys[x], d as int, t as int)) as int
            } else {
                0
            });
    proof {
        assert(cell.key_seq() == keys);
        assert forall|x: int| 0 <= x < keys.len() implies 0 <= #[trigger] all(x) by {}
    }
    let mut buckets: Vec<usize> = Vec::new();
    let mut b: usize = 0;
    while b < 8
        invariant
            b <= 8,
            buckets@.len() == b,
            forall|s2: int| 0 <= s2 < b ==> #[trigger] buckets@[s2] == 0,
        decreases 8 - b,
    {
        buckets.push(0);
        b = b + 1;
    }
    let mut j: usize = 0;
    while j < entries.len()
        invariant
            entries@.len() == keys.len(),
            forall|x: int| 0 <= x < keys.len() ==> (#[trigger] entries@[x]).0 == keys[x] && entries@[x].1 == cell.count(keys[x]),
            forall|c: usize| #[trigger] cell.count(c) == state.count(session_at(c, d as int, t as int)),
            forall|c: usize| keys.contains(c) <==> state.count(session_at(c, d as int, t as int)) > 0,
            forall|c: usize| state.count(#[trigger] session_at(c, d as int, t as int)) > 0 ==> c < meta.classes().len(),
            sum_to(keys.len() as int, all) <= usize::MAX,
            forall|x: int| 0 <= x < keys.len() ==> 0 <= #[trigger] all(x),
            all == (|x: int| state.count(session_at(keys[x], d as int, t as int)) as int),
            term == (|s2: int|
                (|x: int|
                    if semester_of(*meta, keys[x]) == s2 {
                        state.count(session_at(keys[x], d as int, t as int)) as int
                    } else {
                        0
                    })),
            j <= keys.len(),
            buckets@.len() == 8,
            forall|s2: int| 0 <= s2 < 8 ==> #[trigger] buckets@[s2] == sum_to(j as int, term(s2)),
        decreases keys.len() - j,
    {
        let (k, c) = entries[j];
        proof {
            assert(keys.contains(k));
            assert(state.count(session_at(k, d as int, t as int)) > 0);
        }
        let m = meta.get_class_metadata(k);
        let semester = match m {
            Some(m) => m.semester_number.index(),
            None => {
                proof {
                    assert(false);
                }
                0
            },
        };
        let ghost before = buckets@;
        proof {
            assert forall|x: int| 0 <= x < j + 1 implies #[trigger] term(semester as int)(x) <= all(x) by {}
            lemma_sum_le(j + 1, term(semester as int), all);
            lemma_sum_monotone(j + 1, keys.len() as int, all);
            assert(sum_to(j + 1, term(semester as int)) == sum_to(j as int, term(semester as int)) + term(semester as int)(j as int));
            assert(term(semester as int)(j as int) == c);
        }
        let v = buckets[semester] + c;
        buckets.set(semester, v);
        proof {
            assert forall|s2: int| 0 <= s2 < 8 implies #[trigger] buckets@[s2] == sum_to(j + 1, term(s2)) by {
                assert(sum_to(j + 1, term(s2)) == sum_to(j as int, term(s2)) + term(s2)(j as int));
                if s2 != semester {
                    assert(buckets@[s2] == before[s2]);
                    assert(term(s2)(j as int) == 0);
                }
            }
        }
        j = j + 1;
    }
    proof {
        assert forall|s2: int| 0 <= s2 < 8 implies #[trigger] buckets@[s2] == cell_semester_count(
            *state,
            *meta,
            d as int,
            t as int,
            s2,
        ) by {
            assert(term(s2) =~= (|x: int|
                if semester_of(*meta, state.cell_classes(d as int, t as int)[x]) == s2 {
                    state.count(session_at(state.cell_classes(d as int, t as int)[x], d as int, t as int)) as int
                } else {
                    0
                }));
        }
    }
    buckets
}

/// Counts, over the cells of the week, the sessions that share their cell with an
/// earlier session of a class of the same semester. Every class with a session must
/// have metadata.
pub fn colliding_count(state: &CalendarState, meta: &MetadataRegister) -> (r: u128)
    requires
        state.wf(),
        forall|c: usize, d: int, t: int|
            0 <= d < DAY_COUNT && 0 <= t < TIMESLOT_COUNT && state.count(#[trigger] session_at(c, d, t)) > 0 ==> c
                < meta.classes().len(),
    ensures
        r == collision_total(*state, *meta),
{
    let ghost per_day = |d2: int| sum_to(TIMESLOT_COUNT as int, |t2: int| cell_collisions(*state, *meta, d2, t2));
    let mut total: u128 = 0;
    let mut d: usize = 0;
    while d < DAY_COUNT
        invariant
            state.wf(),
            forall|c: usize, d2: int, t2: int|
                0 <= d2 < DAY_COUNT && 0 <= t2 < TIMESLOT_COUNT && state.count(#[trigger] session_at(c, d2, t2)) > 0
                    ==> c < meta.classes().len(),
            per_day == (|d2: int| sum_to(TIMESLOT_COUNT as int, |t2: int| cell_collisions(*state, *meta, d2, t2))),
            d <= DAY_COUNT,
            total == sum_to(d as int, per_day),
            total <= 0x60_0000_0000_0000_0000 * d,
        decreases DAY_COUNT - d,
    {
        let ghost per_cell = |t2: int| cell_collisions(*state, *meta, d as int, t2);
        let mut day_total: u128 = 0;
        let mut t: usize = 0;
        while t < TIMESLOT_COUNT
            invariant
                state.wf(),
                d < DAY_COUNT,
                forall|c: usize, d2: int, t2: int|
                    0 <= d2 < DAY_COUNT && 0 <= t2 < TIMESLOT_COUNT && state.count(#[trigger] session_at(c, d2, t2)) > 0
                        ==> c < meta.classes().len(),
                per_cell == (|t2: int| cell_collisions(*state, *meta, d as int, t2)),
                t <= TIMESLOT_COUNT,
                day_total == sum_to(t as int, per_cell),
                day_total <= 0x8_0000_0000_0000_0000 * t,
            decreases TIMESLOT_COUNT - t,
        {
            let counts = semester_counts(state, meta, d, t);
            let ghost term = |s: int| beyond_first(cell_semester_count(*state, *meta, d as int, t as int, s));
            let mut cell: u128 = 0;
            let mut s: usize = 0;
            while s < 8
                invariant
                    counts@.len() == 8,
                    forall|s2: int| 0 <= s2 < 8 ==> #[trigger] counts@[s2] == cell_semester_count(*state, *meta, d as int, t as int, s2),
                    term == (|s2: int| beyond_first(cell_semester_count(*state, *meta, d as int, t as int, s2))),
                    s <= 8,
                    cell == sum_to(s as int, term),
                    cell <= 0x1_0000_0000_0000_0000 * s,
                decreases 8 - s,
            {
                let x = counts[s];
                let extra: u128 = if x > 0 {
                    (x - 1) as u128
                } else {
                    0
                };
                assert(sum_to(s + 1, term) == sum_to(s as int, term) + term(s as int));
                cell = cell + extra;
                s = s + 1;
            }
            assert(cell <= 0x8_0000_0000_0000_0000);
            proof {
                assert(term =~= (|s2: int| beyond_first(cell_semester_count(*state, *meta, d as int, t as int, s2))));
                assert(per_cell(t as int) == cell);
                assert(sum_to(t + 1, per_cell) == sum_to(t as int, per_cell) + per_cell(t as int));
            }
            day_total = day_total + cell;
            t = t + 1;
        }
        assert(day_total <= 0x60_0000_0000_0000_0000);
        proof {
            assert(per_day(d as int) == sum_to(TIMESLOT_COUNT as int, per_cell)) by {
                assert(per_cell =~= (|t2: int| cell_collisions(*state, *meta, d as int, t2)));
            }
            assert(sum_to(d + 1, per_day) == sum_to(d as int, per_day) + per_day(d as int));
        }
        total = total + day_total;
        d = d + 1;
    }
    proof {
        assert(per_day =~= (|d2: int| sum_to(TIMESLOT_COUNT as int, |t2: int| cell_collisions(*state, *meta, d2, t2))));
    }
    total
}

} // verus!
