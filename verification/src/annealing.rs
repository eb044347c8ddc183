//! The integer parts of the annealing search: the weighted sum of the penalties that
//! the search minimises, and undoing a move that was not accepted.
use vstd::prelude::*;

use rand_chacha::ChaCha8Rng;

use crate::bounds::{lemma_weighted_penalty_bound, within_size_limit};
use crate::class_calendar::{move_count, ClassCalendar, ClassEntryDelta, MoveOneClassRandomError, SingleClassEntry};
use crate::classroom_assignment::{count_classroom_assignment_collisions, week_capacity};
use crate::constraints::{Availability, ClassKey, OptimizationConstraints};
use crate::day_penalties::{
    availability_penalty, count_available_if_needed, count_holes_per_semester,
    count_incontinuous_classes, count_inconsistent_class_timeslots, count_labs_on_different_days,
    count_not_available, count_outside_session_length, gap_penalty, inconsistency_penalty,
    lab_penalty, lemma_day_penalties_nonneg, semester_holes_penalty, session_length_penalty,
};
use crate::heuristics::{
    lemma_professor_clash_counted, professor_load,
    lemma_bucket_penalty_nonneg, lemma_same_timeslot_penalty_nonneg, professor_buckets,
    professors_known, same_professor_penalty, same_semester_penalty, same_timeslot_classes_count,
    same_timeslot_classes_count_per_professor, same_timeslot_classes_count_per_semester,
    same_timeslot_penalty, semester_buckets,
};
use crate::school_schedule::{class_total, lemma_cell_le_week_hours, lemma_week_hours_update, lemma_week_hours_zero};
use crate::week_calendar::{cell_index, lemma_cell_index_bijective, Day, Timeslot, DATA_LEN, DAY_COUNT, TIMESLOT_COUNT};
use crate::constraints::SEMESTER_COUNT;

verus! {

/// The weights are given in thousandths: the cost is the weighted sum divided by this.
pub const EVALUATORS_FACTOR: u64 = 1000;

/// Shortest session, in timeslots, that goes unpenalised.
pub const MIN_SESSION_LENGTH: u8 = 2;

/// Longest session, in timeslots, that goes unpenalised.
pub const MAX_SESSION_LENGTH: u8 = 4;

/// The penalties weighted in thousandths, from the heaviest: sessions without a room,
/// a professor or a semester in two places at once, laboratories spread over days,
/// sessions where the professor is not available, days broken by free timeslots,
/// sessions of the wrong length, free timeslots inside a semester's day, sessions
/// where the professor is available only if needed, classes that change timeslots,
/// and crowded cells.
pub open spec fn weighted_penalty(state: ClassCalendar, constraints: OptimizationConstraints) -> int {
    10000 * (state.entries().len() - week_capacity(state, constraints)) + 9000
        * same_professor_penalty(state, constraints) + 5000 * same_semester_penalty(state, constraints)
        + 4500 * lab_penalty(state, constraints) + 3000 * availability_penalty(
        state,
        constraints,
        Availability::NotAvailable,
    ) + 2500 * gap_penalty(state) + 1500 * session_length_penalty(
        state,
        MIN_SESSION_LENGTH as int,
        MAX_SESSION_LENGTH as int,
    ) + 1300 * semester_holes_penalty(state, constraints) + 1250 * availability_penalty(
        state,
        constraints,
        Availability::AvailableIfNeeded,
    ) + 1000 * inconsistency_penalty(state) + 100 * same_timeslot_penalty(state)
}

/// The weighted sum of all penalties of a calendar, in thousandths of the cost that the
/// search minimises.
pub fn weighted_cost(state: &ClassCalendar, constraints: &OptimizationConstraints) -> (r: u64)
    requires
        professors_known(*state, *constraints),
        weighted_penalty(*state, *constraints) <= u64::MAX,
    ensures
        r == weighted_penalty(*state, *constraints),
{
    proof {
        lemma_day_penalties_nonneg(
            *state,
            *constraints,
            MIN_SESSION_LENGTH as int,
            MAX_SESSION_LENGTH as int,
        );
        lemma_bucket_penalty_nonneg(
            *state,
            professor_buckets(*state, *constraints),
            constraints.professors@.len() as int,
        );
        lemma_bucket_penalty_nonneg(*state, semester_buckets(*state, *constraints), SEMESTER_COUNT as int);
        lemma_same_timeslot_penalty_nonneg(*state);
    }
    let collisions = count_classroom_assignment_collisions(state, constraints);
    let professor = same_timeslot_classes_count_per_professor(state, constraints);
    let semester = same_timeslot_classes_count_per_semester(state, constraints);
    let labs = count_labs_on_different_days(state, constraints);
    let not_available = count_not_available(state, constraints);
    let incontinuous = count_incontinuous_classes(state);
    let session_length = count_outside_session_length(state, MIN_SESSION_LENGTH, MAX_SESSION_LENGTH);
    let holes = count_holes_per_semester(state, constraints);
    let if_needed = count_available_if_needed(state, constraints);
    let inconsistent = count_inconsistent_class_timeslots(state);
    let crowded = same_timeslot_classes_count(state);
    let total: u128 = 10000 * (collisions as u128) + 9000 * (professor as u128) + 5000 * (
    semester as u128) + 4500 * (labs as u128) + 3000 * (not_available as u128) + 2500 * (
    incontinuous as u128) + 1500 * (session_length as u128) + 1300 * (holes as u128) + 1250 * (
    if_needed as u128) + 1000 * (inconsistent as u128) + 100 * (crowded as u128);
    total as u64
}

/// A professor teaching two or more sessions in one cell costs 9000 thousandths for
/// each of them, on top of the cost of the sessions left without a room: every other
/// penalty is never negative.
pub proof fn lemma_professor_clash_cost(
    state: ClassCalendar,
    constraints: OptimizationConstraints,
    p: int,
    d: int,
    t: int,
)
    requires
        0 <= p < constraints.professors@.len(),
        0 <= d < DAY_COUNT,
        0 <= t < TIMESLOT_COUNT,
        professor_load(state, constraints, p, d, t) >= 2,
    ensures
        weighted_penalty(state, constraints) >= 10000 * (state.entries().len() - week_capacity(state, constraints))
            + 9000 * professor_load(state, constraints, p, d, t),
{
    lemma_day_penalties_nonneg(state, constraints, MIN_SESSION_LENGTH as int, MAX_SESSION_LENGTH as int);
    lemma_bucket_penalty_nonneg(state, semester_buckets(state, constraints), SEMESTER_COUNT as int);
    lemma_same_timeslot_penalty_nonneg(state);
    lemma_professor_clash_counted(state, constraints, p, d, t);
}

/// The move that undoes `delta`: source and destination exchanged.
pub open spec fn swapped(delta: ClassEntryDelta) -> ClassEntryDelta {
    ClassEntryDelta {
        class_key: delta.class_key,
        src_day: delta.dst_day,
        src_timeslot: delta.dst_timeslot,
        dst_day: delta.src_day,
        dst_timeslot: delta.src_timeslot,
    }
}

/// The move that undoes `delta`.
pub fn swap_delta(delta: ClassEntryDelta) -> (r: ClassEntryDelta)
    ensures
        r == swapped(delta),
{
    ClassEntryDelta {
        class_key: delta.class_key,
        src_day: delta.dst_day,
        src_timeslot: delta.dst_timeslot,
        dst_day: delta.src_day,
        dst_timeslot: delta.src_timeslot,
    }
}

/// Exchanging source and destination twice gives the move back.
pub proof fn lemma_swap_delta_involution(delta: ClassEntryDelta)
    ensures
        swapped(swapped(delta)) == delta,
{
}

/// Moves back the session that `delta` moved: one session of its class goes from the
/// destination cell to the source cell.
pub fn revert_change(state: &mut ClassCalendar, delta: &ClassEntryDelta)
    requires
        old(state).wf(),
        delta.class_key.0 < old(state).num_classes(),
        old(state).count(delta.class_key.0 as int, delta.dst_day.index() as int, delta.dst_timeslot.index() as int)
            > 0,
        old(state).count(delta.class_key.0 as int, delta.src_day.index() as int, delta.src_timeslot.index() as int)
            < 255 || (delta.src_day.index() == delta.dst_day.index() && delta.src_timeslot.index()
            == delta.dst_timeslot.index()),
    ensures
        final(state).wf(),
        final(state).num_classes() == old(state).num_classes(),
        final(state).entries().len() == old(state).entries().len(),
        final(state).counts() == move_count(
            old(state).counts(),
            delta.class_key.0 as int,
            cell_index(delta.dst_day.index() as int, delta.dst_timeslot.index() as int),
            cell_index(delta.src_day.index() as int, delta.src_timeslot.index() as int),
        ),
{
    state.move_one_class(
        delta.dst_day,
        delta.dst_timeslot,
        delta.src_day,
        delta.src_timeslot,
        delta.class_key,
    );
}

/// Moving a session of class `k` from cell `src` to cell `dst` and then back gives
/// the counts back, when the source held a session and the destination had room.
pub proof fn lemma_move_then_revert(counts: Seq<Seq<u8>>, k: int, src: int, dst: int)
    requires
        0 <= k < counts.len(),
        0 <= src < counts[k].len(),
        0 <= dst < counts[k].len(),
        counts[k][src] > 0,
        counts[k][dst] < 255 || src == dst,
    ensures
        move_count(move_count(counts, k, src, dst), k, dst, src) == counts,
{
    let moved = move_count(counts, k, src, dst);
    if src == dst {
        assert(moved[k] =~= counts[k]);
    } else {
        assert(moved[k][dst] == counts[k][dst] + 1);
        assert(moved[k][src] == counts[k][src] - 1);
    }
    assert(move_count(moved, k, dst, src)[k] =~= counts[k]);
    assert(move_count(moved, k, dst, src) =~= counts);
}

/// A move followed by its revert gives back the same counts and the same sessions, in
/// some order: `moved` is `before` after the move of `delta`, and `after` is `moved`
/// after `revert_change` with `delta`.
pub proof fn lemma_propose_then_revert(
    before: ClassCalendar,
    moved: ClassCalendar,
    after: ClassCalendar,
    delta: ClassEntryDelta,
)
    requires
        before.wf(),
        moved.wf(),
        after.wf(),
        before.num_classes() == after.num_classes(),
        delta.class_key.0 < before.num_classes(),
        delta.src_day.index() < DAY_COUNT,
        delta.src_timeslot.index() < TIMESLOT_COUNT,
        delta.dst_day.index() < DAY_COUNT,
        delta.dst_timeslot.index() < TIMESLOT_COUNT,
        before.count(delta.class_key.0 as int, delta.src_day.index() as int, delta.src_timeslot.index() as int) > 0,
        before.count(delta.class_key.0 as int, delta.dst_day.index() as int, delta.dst_timeslot.index() as int)
            < 255 || (delta.src_day.index() == delta.dst_day.index() && delta.src_timeslot.index()
            == delta.dst_timeslot.index()),
        moved.counts() == move_count(
            before.counts(),
            delta.class_key.0 as int,
            cell_index(delta.src_day.index() as int, delta.src_timeslot.index() as int),
            cell_index(delta.dst_day.index() as int, delta.dst_timeslot.index() as int),
        ),
        after.counts() == move_count(
            moved.counts(),
            delta.class_key.0 as int,
            cell_index(delta.dst_day.index() as int, delta.dst_timeslot.index() as int),
            cell_index(delta.src_day.index() as int, delta.src_timeslot.index() as int),
        ),
    ensures
        after.counts() == before.counts(),
        after.entries().to_multiset() == before.entries().to_multiset(),
{
    let src = cell_index(delta.src_day.index() as int, delta.src_timeslot.index() as int);
    let dst = cell_index(delta.dst_day.index() as int, delta.dst_timeslot.index() as int);
    lemma_cell_index_bijective(
        delta.src_day.index() as int,
        delta.src_timeslot.index() as int,
        delta.dst_day.index() as int,
        delta.dst_timeslot.index() as int,
    );
    lemma_cell_index_bijective(
        delta.dst_day.index() as int,
        delta.dst_timeslot.index() as int,
        delta.src_day.index() as int,
        delta.src_timeslot.index() as int,
    );
    before.lemma_wf();
    lemma_move_then_revert(before.counts(), delta.class_key.0 as int, src, dst);
    ClassCalendar::lemma_same_counts_same_entries(after, before);
}

/// One proposal of the annealing search: moves one session of `state` to a random
/// cell and returns the move with the weighted penalty of the new calendar. Fails,
/// changing nothing, when there is no session or the chosen cell is full.
pub fn propose_move(
    state: &mut ClassCalendar,
    constraints: &OptimizationConstraints,
    rng: &mut ChaCha8Rng,
) -> (r: Result<(ClassEntryDelta, u64), MoveOneClassRandomError>)
    requires
        professors_known(*old(state), *constraints),
        within_size_limit(*old(state), *constraints),
    ensures
        professors_known(*final(state), *constraints),
        within_size_limit(*final(state), *constraints),
        final(state).entries().len() == old(state).entries().len(),
        r matches Err(MoveOneClassRandomError::NoClassesToMove) <==> old(state).entries().len() == 0,
        old(state).entries().len() > 0 && (forall|k: int, c: int|
            0 <= k < old(state).num_classes() && 0 <= c < DATA_LEN ==> #[trigger] old(state).counts()[k][c] < 255)
            ==> r is Ok,
        r matches Err(MoveOneClassRandomError::RandomChosenDestinationFull) ==> exists|i: int, c: int|
            0 <= i < old(state).entries().len() && 0 <= c < DATA_LEN && #[trigger] old(state).counts()[
                old(state).entries()[i].class_key.0 as int][c] == 255,
        r is Err ==> final(state).counts() == old(state).counts() && final(state).entries() == old(state).entries(),
        r matches Ok((delta, cost)) ==> {
            let k = delta.class_key.0 as int;
            let src = cell_index(delta.src_day.index() as int, delta.src_timeslot.index() as int);
            let dst = cell_index(delta.dst_day.index() as int, delta.dst_timeslot.index() as int);
            &&& 0 <= k < old(state).num_classes()
            &&& old(state).counts()[k][src] > 0
            &&& old(state).counts()[k][dst] < 255
            &&& final(state).counts() == move_count(old(state).counts(), k, src, dst)
            &&& exists|i: int|
                0 <= i < old(state).entries().len() && #[trigger] old(state).entries()[i] == SingleClassEntry {
                    day: delta.src_day,
                    timeslot: delta.src_timeslot,
                    class_key: delta.class_key,
                } && final(state).entries() == old(state).entries().update(
                    i,
                    SingleClassEntry { day: delta.dst_day, timeslot: delta.dst_timeslot, class_key: delta.class_key },
                )
            &&& cost == weighted_penalty(*final(state), *constraints)
        },
{
    match state.move_one_class_random(rng) {
        Ok(delta) => {
            proof {
                lemma_weighted_penalty_bound(*state, *constraints);
            }
            let cost = weighted_cost(state, constraints);
            Ok((delta, cost))
        },
        Err(e) => Err(e),
    }
}

/// A calendar of the classes of `constraints` in which every class has as many
/// sessions as its weekly hours, each put in a random cell of the week.
pub fn random_init(constraints: &OptimizationConstraints, rng: &mut ChaCha8Rng) -> (r: ClassCalendar)
    ensures
        r.wf(),
        r.num_classes() == constraints.classes@.len(),
        forall|k: int| 0 <= k < r.num_classes() ==> #[trigger] class_total(r, k) == constraints.classes@[k].class_hours,
{
    let n = constraints.classes.len();
    let mut state = ClassCalendar::new();
    proof {
        state.lemma_wf();
    }
    let mut i: usize = 0;
    while i < n
        invariant
            state.wf(),
            i <= n,
            state.num_classes() == i,
            state.counts().len() == i,
            forall|k: int, c: int| 0 <= k < i && 0 <= c < DATA_LEN ==> #[trigger] state.counts()[k][c] == 0,
        decreases n - i,
    {
        let ghost before = state.counts();
        state.new_class();
        proof {
            state.lemma_wf();
            assert forall|k: int, c: int| 0 <= k < i + 1 && 0 <= c < DATA_LEN implies #[trigger] state.counts()[k][c] == 0 by {
                if k < i {
                    assert(state.counts()[k] == before[k]);
                }
            }
        }
        i = i + 1;
    }
    proof {
        state.lemma_wf();
        assert forall|k: int| 0 <= k < n implies #[trigger] class_total(state, k) == 0 by {
            assert forall|c: int| 0 <= c < DATA_LEN implies #[trigger] state.counts()[k][c] == 0 by {}
            lemma_week_hours_zero(state.counts()[k]);
        }
    }
    let mut k: usize = 0;
    while k < n
        invariant
            state.wf(),
            n == constraints.classes@.len(),
            state.num_classes() == n,
            k <= n,
            forall|k2: int| 0 <= k2 < k ==> #[trigger] class_total(state, k2) == constraints.classes@[k2].class_hours,
            forall|k2: int| k <= k2 < n ==> #[trigger] class_total(state, k2) == 0,
        decreases n - k,
    {
        let hours = constraints.classes[k].class_hours;
        let mut j: u8 = 0;
        while j < hours
            invariant
                state.wf(),
                n == constraints.classes@.len(),
                state.num_classes() == n,
                k < n,
                hours == constraints.classes@[k as int].class_hours,
                j <= hours,
                class_total(state, k as int) == j,
                forall|k2: int| 0 <= k2 < k ==> #[trigger] class_total(state, k2) == constraints.classes@[k2].class_hours,
                forall|k2: int| k < k2 < n ==> #[trigger] class_total(state, k2) == 0,
            decreases hours - j,
        {
            let day = Day::new_random(rng);
            let timeslot = Timeslot::new_random(rng);
            let ghost before = state.counts();
            let ghost old_state = state;
            let ghost c = cell_index(day.index() as int, timeslot.index() as int);
            proof {
                state.lemma_wf();
                lemma_cell_le_week_hours(before[k as int], day.index() as int, timeslot.index() as int);
            }
            let added = state.add_one_class(day, timeslot, ClassKey(k));
            proof {
                state.lemma_wf();
                lemma_week_hours_update(before[k as int], day.index() as int, timeslot.index() as int, (before[k as int][c] + 1) as u8);
                assert forall|k2: int| 0 <= k2 < n && k2 != k implies state.counts()[k2] == before[k2] by {}
                assert forall|k2: int| 0 <= k2 < k implies #[trigger] class_total(state, k2) == constraints.classes@[k2].class_hours by {
                    assert(state.counts()[k2] == before[k2]);
                    assert(class_total(old_state, k2) == constraints.classes@[k2].class_hours);
                }
                assert forall|k2: int| k < k2 < n implies #[trigger] class_total(state, k2) == 0 by {
                    assert(state.counts()[k2] == before[k2]);
                    assert(class_total(old_state, k2) == 0);
                }
            }
            j = j + 1;
        }
        k = k + 1;
    }
    state
}

} // verus!
