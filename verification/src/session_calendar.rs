//! A calendar of class sessions kept three ways at once: per cell of the week, the
//! classes present and how many sessions each has there; per class, its counts over
//! the week; and the counter of (class, cell) sessions. The three always agree.
use vstd::prelude::*;
use rand_chacha::ChaCha8Rng;

use crate::real_counter::{CounterKey, RealCounter};
use crate::sums::{lemma_sum_blocks, lemma_sum_ext, lemma_sum_nonneg, lemma_sum_update, lemma_sum_zero, lemma_term_le_sum, sum_to};
use crate::random::{random_below, random_ratio};
use crate::week_calendar::{UsizeRange, cell_index, lemma_cell_index_bijective, DATA_LEN, DAY_COUNT, TIMESLOT_COUNT};

verus! {

/// A cell of the week: a day (0 to 4) and a timeslot of that day (0 to 11).
#[derive(Clone, Copy, Debug, PartialEq, Eq, Hash)]
pub struct DayTimeSlot {
    pub day: usize,
    pub timeslot: usize,
}

/// One session of a class in a cell of the week.
#[derive(Clone, Copy, Debug, PartialEq, Eq, Hash)]
pub struct Session {
    pub class_id: usize,
    pub t: DayTimeSlot,
}

impl CounterKey for Session {
    fn same(&self, other: &Self) -> (r: bool) {
        self.class_id == other.class_id && self.t.day == other.t.day && self.t.timeslot
            == other.t.timeslot
    }
}

/// The session of class `c` in (`d`, `t`).
pub open spec fn session_at(c: usize, d: int, t: int) -> Session {
    Session { class_id: c, t: DayTimeSlot { day: d as usize, timeslot: t as usize } }
}

/// The counts of one class over the week, one per cell.
#[derive(Clone, Debug)]
pub struct ClassSchedule {
    pub class_id: usize,
    pub counts: Vec<usize>,
}

/// `after` is `before` with one session `src` moved to `dst`: the counts of every other
/// session are unchanged, and so are the classes with a schedule and the total.
pub open spec fn moved(before: CalendarState, after: CalendarState, src: Session, dst: Session) -> bool {
    &&& forall|s: Session|
        #[trigger] after.count(s) == before.count(s) - (if s == src { 1int } else { 0int }) + (if s
            == dst { 1int } else { 0int })
    &&& forall|c: usize| after.known(c) == before.known(c)
    &&& after.total() == before.total()
}

/// Number of sessions of class `class_id` over the week, summed cell by cell.
pub open spec fn class_time(s: CalendarState, class_id: usize) -> int {
    sum_to(
        DATA_LEN as int,
        |c: int| s.count(session_at(class_id, c / TIMESLOT_COUNT as int, c % TIMESLOT_COUNT as int)) as int,
    )
}

/// Moving one session of a class from a cell of the week to another keeps the number
/// of sessions of every class over the week.
pub proof fn lemma_move_keeps_class_time(
    before: CalendarState,
    after: CalendarState,
    class_id: usize,
    source: DayTimeSlot,
    target: DayTimeSlot,
    other: usize,
)
    requires
        moved(before, after, Session { class_id, t: source }, Session { class_id, t: target }),
        source.day < DAY_COUNT,
        source.timeslot < TIMESLOT_COUNT,
        target.day < DAY_COUNT,
        target.timeslot < TIMESLOT_COUNT,
    ensures
        class_time(after, other) == class_time(before, other),
{
    let src = Session { class_id, t: source };
    let dst = Session { class_id, t: target };
    let f = |c: int| before.count(session_at(other, c / TIMESLOT_COUNT as int, c % TIMESLOT_COUNT as int)) as int;
    let g = |c: int| after.count(session_at(other, c / TIMESLOT_COUNT as int, c % TIMESLOT_COUNT as int)) as int;
    let cs = cell_index(source.day as int, source.timeslot as int);
    let ct = cell_index(target.day as int, target.timeslot as int);
    lemma_cell_index_bijective(source.day as int, source.timeslot as int, target.day as int, target.timeslot as int);
    assert(cs / TIMESLOT_COUNT as int == source.day && cs % TIMESLOT_COUNT as int == source.timeslot);
    assert(ct / TIMESLOT_COUNT as int == target.day && ct % TIMESLOT_COUNT as int == target.timeslot);
    assert(session_at(class_id, cs / TIMESLOT_COUNT as int, cs % TIMESLOT_COUNT as int) == src);
    assert(session_at(class_id, ct / TIMESLOT_COUNT as int, ct % TIMESLOT_COUNT as int) == dst);
    assert forall|c: int| 0 <= c < DATA_LEN && c != cs && c != ct implies #[trigger] g(c) == f(c) by {
        let d = c / TIMESLOT_COUNT as int;
        let t = c % TIMESLOT_COUNT as int;
        assert(c == cell_index(d, t));
        lemma_cell_index_bijective(d, t, source.day as int, source.timeslot as int);
        lemma_cell_index_bijective(d, t, target.day as int, target.timeslot as int);
        assert(session_at(other, d, t) != src);
        assert(session_at(other, d, t) != dst);
        assert(after.count(session_at(other, d, t)) == before.count(session_at(other, d, t)));
    }
    if other != class_id || cs == ct {
        assert forall|c: int| 0 <= c < DATA_LEN implies #[trigger] g(c) == f(c) by {
            if c == cs || c == ct {
                let x = session_at(other, c / TIMESLOT_COUNT as int, c % TIMESLOT_COUNT as int);
                assert(after.count(x) == before.count(x) - (if x == src { 1int } else { 0int }) + (if x == dst {
                    1int
                } else {
                    0int
                }));
            }
        }
        lemma_sum_ext(DATA_LEN as int, f, g);
    } else {
        let h = |c: int| if c == cs { f(c) - 1 } else { f(c) };
        assert(after.count(src) == before.count(src) - 1);
        assert(after.count(dst) == before.count(dst) + 1);
        lemma_sum_update(DATA_LEN as int, f, h, cs, -1);
        lemma_sum_update(DATA_LEN as int, h, g, ct, 1);
    }
}

/// `after` is `before` with one session moved within its day to the timeslot before
/// or after, or to the day before or after and any timeslot of the week.
pub open spec fn is_neighbor(before: CalendarState, after: CalendarState) -> bool {
    exists|src: Session, dst: Session|
        #![trigger moved(before, after, src, dst)]
        {
            &&& before.count(src) > 0
            &&& dst.class_id == src.class_id
            &&& dst.t.day < DAY_COUNT
            &&& dst.t.timeslot < TIMESLOT_COUNT
            &&& ((dst.t.day == src.t.day && (dst.t.timeslot == shift_bounded(
                src.t.timeslot as int,
                0,
                TIMESLOT_COUNT as int,
                true,
            ) || dst.t.timeslot == shift_bounded(src.t.timeslot as int, 0, TIMESLOT_COUNT as int, false)))
                || dst.t.day == shift_bounded(src.t.day as int, 0, DAY_COUNT as int, true) || dst.t.day
                == shift_bounded(src.t.day as int, 0, DAY_COUNT as int, false))
            &&& moved(before, after, src, dst)
        }
}

/// Sessions of classes placed in the cells of the week.
#[derive(Debug)]
pub struct CalendarState {
    class_schedules: Vec<ClassSchedule>,
    schedule_matrix: Vec<RealCounter<usize>>,
    session_set: RealCounter<Session>,
}

impl CalendarState {
    /// Number of sessions `s` in the calendar.
    pub closed spec fn count(self, s: Session) -> nat {
        self.session_set.count(s)
    }

    /// Class `c` has a schedule: it had a session at some point since it was last
    /// removed.
    pub closed spec fn known(self, c: usize) -> bool {
        exists|i: int| 0 <= i < self.class_schedules@.len() && self.class_schedules@[i].class_id == c
    }

    /// Number of sessions in the calendar.
    pub closed spec fn total(self) -> nat {
        self.session_set.total()
    }

    /// The classes with a schedule, in the order they got one.
    pub closed spec fn class_ids(self) -> Seq<usize> {
        self.class_schedules@.map_values(|cs: ClassSchedule| cs.class_id)
    }

    /// The distinct sessions of the calendar, each once.
    pub closed spec fn sessions(self) -> Seq<Session> {
        self.session_set.key_seq()
    }

    /// Number of sessions, of all classes, in (`d`, `t`).
    pub closed spec fn cell_total(self, d: int, t: int) -> nat {
        self.schedule_matrix@[cell_index(d, t)].total()
    }

    /// The classes with a session in (`d`, `t`), each once.
    pub closed spec fn cell_classes(self, d: int, t: int) -> Seq<usize> {
        self.schedule_matrix@[cell_index(d, t)].key_seq()
    }

    /// The classes of a cell are those with a session there, each once, and the
    /// number of sessions there is the sum of their sessions.
    pub proof fn lemma_cell_classes(self, d: int, t: int)
        requires
            self.wf(),
            0 <= d < DAY_COUNT,
            0 <= t < TIMESLOT_COUNT,
        ensures
            self.cell_classes(d, t).no_duplicates(),
            forall|c: usize| self.cell_classes(d, t).contains(c) <==> self.count(session_at(c, d, t)) > 0,
            sum_to(
                self.cell_classes(d, t).len() as int,
                |j: int| self.count(session_at(self.cell_classes(d, t)[j], d, t)) as int,
            ) == self.cell_total(d, t),
            self.cell_total(d, t) <= self.total(),
            self.total() <= usize::MAX,
    {
        lemma_cell_index_bijective(d, t, d, t);
        let cell = self.schedule_matrix@[cell_index(d, t)];
        cell.lemma_wf();
        cell.lemma_total_is_sum();
        self.session_set.lemma_wf();
        assert forall|c: usize| cell.count(c) == self.count(#[trigger] session_at(c, d, t)) by {}
        lemma_sum_ext(
            cell.key_seq().len() as int,
            |j: int| cell.count(cell.key_seq()[j]) as int,
            |j: int| self.count(session_at(cell.key_seq()[j], d, t)) as int,
        );
        self.lemma_cell_totals();
        let f = |d2: int| sum_to(TIMESLOT_COUNT as int, |t2: int| self.cell_total(d2, t2) as int);
        assert forall|d2: int| 0 <= d2 < DAY_COUNT implies 0 <= #[trigger] f(d2) by {
            lemma_sum_nonneg(TIMESLOT_COUNT as int, |t2: int| self.cell_total(d2, t2) as int);
        }
        lemma_term_le_sum(DAY_COUNT as int, f, d);
        lemma_term_le_sum(TIMESLOT_COUNT as int, |t2: int| self.cell_total(d, t2) as int, t);
    }

    /// The cell totals add up, day by day, to the number of sessions; a cell holds at
    /// least the sessions of each class there, and holds none exactly when no class
    /// has a session there.
    pub proof fn lemma_cell_totals(self)
        requires
            self.wf(),
        ensures
            sum_to(DAY_COUNT as int, |d: int| sum_to(TIMESLOT_COUNT as int, |t: int| self.cell_total(d, t) as int))
                == self.total(),
            forall|c: usize, d: int, t: int|
                0 <= d < DAY_COUNT && 0 <= t < TIMESLOT_COUNT ==> #[trigger] self.count(session_at(c, d, t))
                    <= self.cell_total(d, t),
            forall|d: int, t: int|
                0 <= d < DAY_COUNT && 0 <= t < TIMESLOT_COUNT ==> (#[trigger] self.cell_total(d, t) == 0 <==> forall|c: usize|
                    self.count(#[trigger] session_at(c, d, t)) == 0),
            self.total() <= usize::MAX,
    {
        self.session_set.lemma_wf();
        let f = |c: int| self.schedule_matrix@[c].total() as int;
        lemma_sum_blocks(DAY_COUNT as int, TIMESLOT_COUNT as int, f);
        let lhs = |d: int| sum_to(TIMESLOT_COUNT as int, |t: int| self.cell_total(d, t) as int);
        let rhs = |d: int| sum_to(TIMESLOT_COUNT as int, |t: int| f(d * TIMESLOT_COUNT as int + t));
        assert forall|d: int| #[trigger] lhs(d) == rhs(d) by {
            lemma_sum_ext(
                TIMESLOT_COUNT as int,
                |t: int| self.cell_total(d, t) as int,
                |t: int| f(d * TIMESLOT_COUNT as int + t),
            );
        }
        assert(lhs =~= rhs);
        assert forall|c: usize, d: int, t: int|
            0 <= d < DAY_COUNT && 0 <= t < TIMESLOT_COUNT implies #[trigger] self.count(session_at(c, d, t))
            <= self.cell_total(d, t) by {
            lemma_cell_index_bijective(d, t, d, t);
            self.schedule_matrix@[cell_index(d, t)].lemma_wf();
            assert(self.schedule_matrix@[cell_index(d, t)].count(c) == self.session_set.count(session_at(c, d, t)));
            assert(self.schedule_matrix@[cell_index(d, t)].count(c) <= self.schedule_matrix@[cell_index(d, t)].total());
        }
        assert forall|d: int, t: int|
            0 <= d < DAY_COUNT && 0 <= t < TIMESLOT_COUNT implies (#[trigger] self.cell_total(d, t) == 0
            <==> forall|c: usize| self.count(#[trigger] session_at(c, d, t)) == 0) by {
            lemma_cell_index_bijective(d, t, d, t);
            let cell = self.schedule_matrix@[cell_index(d, t)];
            cell.lemma_wf();
            if cell.total() == 0 {
                assert forall|c: usize| self.count(#[trigger] session_at(c, d, t)) == 0 by {
                    assert(cell.count(c) <= cell.total());
                }
            } else {
                cell.lemma_total_is_sum();
                if cell.key_seq().len() == 0 {
                    assert(cell.total() == 0);
                }
                let k = cell.key_seq()[0];
                assert(cell.key_seq().contains(k));
                assert(self.count(session_at(k, d, t)) > 0);
            }
        }
    }

    /// What the lists of classes and sessions hold: each class with a schedule once,
    /// each session of the calendar once, and every session's class has a schedule.
    pub proof fn lemma_lists(self)
        requires
            self.wf(),
        ensures
            self.class_ids().no_duplicates(),
            forall|c: usize| self.known(c) <==> self.class_ids().contains(c),
            self.sessions().no_duplicates(),
            forall|s: Session| self.sessions().contains(s) <==> self.count(s) > 0,
            forall|s: Session| #[trigger] self.count(s) > 0 ==> s.t.day < DAY_COUNT && s.t.timeslot < TIMESLOT_COUNT
                && self.known(s.class_id),
    {
        self.session_set.lemma_wf();
        let ids = self.class_ids();
        assert forall|i: int, j: int| 0 <= i < ids.len() && 0 <= j < ids.len() && i != j implies ids[i] != ids[j] by {
            if i < j {
                assert(self.class_schedules@[i].class_id != self.class_schedules@[j].class_id);
            } else {
                assert(self.class_schedules@[j].class_id != self.class_schedules@[i].class_id);
            }
        }
        assert forall|c: usize| self.known(c) <==> ids.contains(c) by {
            if self.known(c) {
                let i = choose|i: int| 0 <= i < self.class_schedules@.len() && self.class_schedules@[i].class_id == c;
                assert(ids[i] == c);
            }
            if ids.contains(c) {
                let i = choose|i: int| 0 <= i < ids.len() && ids[i] == c;
                assert(self.class_schedules@[i].class_id == c);
            }
        }
    }

    /// The three views agree, sessions lie in the week, classes with sessions have a
    /// schedule, and the per-cell totals add up to the number of sessions.
    pub closed spec fn wf(self) -> bool {
        &&& self.schedule_matrix@.len() == DATA_LEN
        &&& forall|i: int| 0 <= i < DATA_LEN ==> (#[trigger] self.schedule_matrix@[i]).wf()
        &&& self.session_set.wf()
        &&& forall|s: Session|
            #[trigger] self.session_set.count(s) > 0 ==> s.t.day < DAY_COUNT && s.t.timeslot
                < TIMESLOT_COUNT && self.known(s.class_id)
        &&& forall|c: usize, d: int, t: int|
            0 <= d < DAY_COUNT && 0 <= t < TIMESLOT_COUNT ==> #[trigger] self.schedule_matrix@[cell_index(
                d,
                t,
            )].count(c) == self.session_set.count(session_at(c, d, t))
        &&& forall|i: int, j: int|
            0 <= i < j < self.class_schedules@.len() ==> self.class_schedules@[i].class_id
                != self.class_schedules@[j].class_id
        &&& forall|i: int|
            0 <= i < self.class_schedules@.len() ==> (#[trigger] self.class_schedules@[i]).counts@.len()
                == DATA_LEN
        &&& forall|i: int, d: int, t: int|
            0 <= i < self.class_schedules@.len() && 0 <= d < DAY_COUNT && 0 <= t < TIMESLOT_COUNT
                ==> #[trigger] self.class_schedules@[i].counts@[cell_index(d, t)]
                == self.session_set.count(session_at(self.class_schedules@[i].class_id, d, t))
        &&& sum_to(DATA_LEN as int, |c: int| self.schedule_matrix@[c].total() as int)
            == self.session_set.total()
    }

    /// The keys of the counter of sessions are the sessions of the calendar.
    proof fn lemma_sessions(self)
        requires
            self.wf(),
        ensures
            forall|s: Session| self.session_set.key_seq().contains(s) <==> self.count(s) > 0,
            (forall|s: Session| self.count(s) == 0) <==> self.session_set.key_seq().len() == 0,
    {
        self.session_set.lemma_wf();
        if self.session_set.key_seq().len() > 0 {
            let s0 = self.session_set.key_seq()[0];
            assert(self.session_set.key_seq().contains(s0));
            assert(self.count(s0) > 0);
        } else {
            assert forall|s: Session| self.count(s) == 0 by {
                if self.count(s) > 0 {
                    assert(self.session_set.key_seq().contains(s));
                }
            }
        }
    }

    /// An empty calendar.
    pub fn new() -> (r: CalendarState)
        ensures
            r.wf(),
            forall|s: Session| r.count(s) == 0,
            forall|c: usize| !r.known(c),
            r.total() == 0,
    {
        let mut matrix: Vec<RealCounter<usize>> = Vec::new();
        let mut i: usize = 0;
        while i < DATA_LEN
            invariant
                i <= DATA_LEN,
                matrix@.len() == i,
                forall|j: int| 0 <= j < i ==> (#[trigger] matrix@[j]).wf(),
                forall|j: int, c: usize| 0 <= j < i ==> #[trigger] matrix@[j].count(c) == 0,
                forall|j: int| 0 <= j < i ==> (#[trigger] matrix@[j]).total() == 0,
            decreases DATA_LEN - i,
        {
            matrix.push(RealCounter::new());
            i = i + 1;
        }
        let r = CalendarState {
            class_schedules: Vec::new(),
            schedule_matrix: matrix,
            session_set: RealCounter::new(),
        };
        proof {
            lemma_sum_zero(DATA_LEN as int, |c: int| r.schedule_matrix@[c].total() as int);
        }
        r
    }

    /// The position of the schedule of class `c`, when it has one.
    fn find_schedule(&self, c: usize) -> (r: Option<usize>)
        ensures
            r is None ==> forall|i: int| 0 <= i < self.class_schedules@.len() ==> self.class_schedules@[i].class_id != c,
            r matches Some(i) ==> i < self.class_schedules@.len() && self.class_schedules@[i as int].class_id == c,
    {
        let mut i: usize = 0;
        while i < self.class_schedules.len()
            invariant
                i <= self.class_schedules@.len(),
                forall|j: int| 0 <= j < i ==> self.class_schedules@[j].class_id != c,
            decreases self.class_schedules@.len() - i,
        {
            if self.class_schedules[i].class_id == c {
                return Some(i);
            }
            i = i + 1;
        }
        None
    }

    /// Adds one session `session`; its cell must lie in the week.
    pub fn increment_session(&mut self, session: Session)
        requires
            old(self).wf(),
            session.t.day < DAY_COUNT,
            session.t.timeslot < TIMESLOT_COUNT,
            old(self).total() < usize::MAX,
        ensures
            final(self).wf(),
            final(self).count(session) == old(self).count(session) + 1,
            forall|s: Session| s != session ==> final(self).count(s) == old(self).count(s),
            forall|c: usize| final(self).known(c) <==> (old(self).known(c) || c == session.class_id),
            final(self).total() == old(self).total() + 1,
    {
        let day = session.t.day;
        let timeslot = session.t.timeslot;
        let class_id = session.class_id;
        let cell = day * TIMESLOT_COUNT + timeslot;
        let ghost d0 = day as int;
        let ghost t0 = timeslot as int;
        let ghost old_matrix = self.schedule_matrix@;
        let ghost old_schedules = self.class_schedules@;
        proof {
            lemma_cell_index_bijective(d0, t0, d0, t0);
            assert(session == session_at(class_id, d0, t0));
            let totals = |c2: int| old_matrix[c2].total() as int;
            assert forall|c: int| 0 <= c < DATA_LEN implies 0 <= #[trigger] totals(c) by {}
            lemma_term_le_sum(DATA_LEN as int, totals, cell as int);
        }
        self.schedule_matrix[cell].increment(class_id);
        let ghost mut sched_idx: int = 0;
        match self.find_schedule(class_id) {
            Some(i) => {
                proof {
                    assert(self.class_schedules@[i as int].counts@[cell as int] == old(self).session_set.count(session));
                    old(self).session_set.lemma_wf();
                }
                let v = self.class_schedules[i].counts[cell] + 1;
                self.class_schedules[i].counts.set(cell, v);
                proof {
                    sched_idx = i as int;
                }
            },
            None => {
                let mut counts: Vec<usize> = Vec::new();
                let mut j: usize = 0;
                while j < DATA_LEN
                    invariant
                        j <= DATA_LEN,
                        cell < DATA_LEN,
                        counts@.len() == j,
                        forall|x: int| 0 <= x < j ==> #[trigger] counts@[x] == if x == cell { 1usize } else { 0usize },
                    decreases DATA_LEN - j,
                {
                    if j == cell {
                        counts.push(1);
                    } else {
                        counts.push(0);
                    }
                    j = j + 1;
                }
                self.class_schedules.push(ClassSchedule { class_id, counts });
                proof {
                    sched_idx = old_schedules.len() as int;
                }
            },
        }
        assert(0 <= sched_idx < self.class_schedules@.len() && self.class_schedules@[sched_idx].class_id == class_id);
        assert(forall|x: int| 0 <= x < old_schedules.len() ==> self.class_schedules@[x].class_id == old_schedules[x].class_id);
        self.session_set.increment(session);
        proof {
            let new_matrix = self.schedule_matrix@;
            assert forall|x: int| 0 <= x < DATA_LEN && x != cell implies #[trigger] new_matrix[x] == old_matrix[x] by {}
            assert forall|c: usize, d: int, t: int|
                0 <= d < DAY_COUNT && 0 <= t < TIMESLOT_COUNT implies #[trigger] new_matrix[cell_index(d, t)].count(c)
                == self.session_set.count(session_at(c, d, t)) by {
                lemma_cell_index_bijective(d, t, d0, t0);
                if d == d0 && t == t0 {
                    if c == class_id {
                        assert(session_at(c, d, t) == session);
                    } else {
                        assert(session_at(c, d, t) != session);
                    }
                } else {
                    assert(session_at(c, d, t) != session);
                }
            }
            assert forall|s: Session| #[trigger] self.session_set.count(s) > 0 implies s.t.day < DAY_COUNT
                && s.t.timeslot < TIMESLOT_COUNT && self.known(s.class_id) by {
                if s == session {
                    assert(self.class_schedules@[sched_idx].class_id == class_id);
                } else {
                    assert(old(self).session_set.count(s) > 0);
                    assert(old(self).known(s.class_id));
                    let i = choose|i: int| 0 <= i < old_schedules.len() && old_schedules[i].class_id == s.class_id;
                    assert(self.class_schedules@[i].class_id == s.class_id);
                }
            }
            assert forall|i: int, d: int, t: int|
                0 <= i < self.class_schedules@.len() && 0 <= d < DAY_COUNT && 0 <= t < TIMESLOT_COUNT
                    implies #[trigger] self.class_schedules@[i].counts@[cell_index(d, t)]
                == self.session_set.count(session_at(self.class_schedules@[i].class_id, d, t)) by {
                lemma_cell_index_bijective(d, t, d0, t0);
                let ci = self.class_schedules@[i].class_id;
                if d == d0 && t == t0 && ci == class_id {
                    assert(session_at(ci, d, t) == session);
                } else {
                    assert(session_at(ci, d, t) != session);
                }
            }
            assert forall|c: usize| self.known(c) <==> (old(self).known(c) || c == class_id) by {
                if old(self).known(c) {
                    let i = choose|i: int| 0 <= i < old_schedules.len() && old_schedules[i].class_id == c;
                    assert(self.class_schedules@[i].class_id == c);
                }
                if c == class_id {
                    assert(self.class_schedules@[sched_idx].class_id == class_id);
                }
                if self.known(c) {
                    let i = choose|i: int| 0 <= i < self.class_schedules@.len() && self.class_schedules@[i].class_id == c;
                    if i < old_schedules.len() {
                        assert(old_schedules[i].class_id == c);
                    }
                }
            }
            lemma_sum_update(
                DATA_LEN as int,
                |c2: int| old_matrix[c2].total() as int,
                |c2: int| new_matrix[c2].total() as int,
                cell as int,
                1,
            );
        }
    }

    /// Removes one session `session`, whose cell must lie in the week. Fails,
    /// changing nothing, when its class has no schedule; the class must not have a
    /// schedule without such a session.
    pub fn decrement_session(&mut self, session: Session) -> (r: Result<(), ()>)
        requires
            old(self).wf(),
            session.t.day < DAY_COUNT,
            session.t.timeslot < TIMESLOT_COUNT,
            old(self).count(session) > 0 || !old(self).known(session.class_id),
        ensures
            final(self).wf(),
            r is Ok <==> old(self).count(session) > 0,
            r is Ok ==> {
                &&& final(self).count(session) == old(self).count(session) - 1
                &&& forall|s: Session| s != session ==> final(self).count(s) == old(self).count(s)
                &&& forall|c: usize| final(self).known(c) == old(self).known(c)
                &&& final(self).total() == old(self).total() - 1
            },
            r is Err ==> *final(self) == *old(self),
    {
        let day = session.t.day;
        let timeslot = session.t.timeslot;
        let class_id = session.class_id;
        let cell = day * TIMESLOT_COUNT + timeslot;
        let ghost d0 = day as int;
        let ghost t0 = timeslot as int;
        let ghost old_matrix = self.schedule_matrix@;
        let ghost old_schedules = self.class_schedules@;
        proof {
            lemma_cell_index_bijective(d0, t0, d0, t0);
            assert(session == session_at(class_id, d0, t0));
            assert(old_matrix[cell as int].count(class_id) == old(self).session_set.count(session));
        }
        let i = match self.find_schedule(class_id) {
            Some(i) => i,
            None => {
                return Err(());
            },
        };
        let _ = self.schedule_matrix[cell].decrement(&class_id);
        proof {
            assert(self.class_schedules@[i as int].counts@[cell as int] == old(self).session_set.count(session));
        }
        let v = self.class_schedules[i].counts[cell] - 1;
        self.class_schedules[i].counts.set(cell, v);
        assert(forall|x: int| 0 <= x < old_schedules.len() ==> self.class_schedules@[x].class_id == old_schedules[x].class_id);
        let _ = self.session_set.decrement(&session);
        proof {
            let new_matrix = self.schedule_matrix@;
            assert forall|x: int| 0 <= x < DATA_LEN && x != cell implies #[trigger] new_matrix[x] == old_matrix[x] by {}
            assert forall|c: usize, d: int, t: int|
                0 <= d < DAY_COUNT && 0 <= t < TIMESLOT_COUNT implies #[trigger] new_matrix[cell_index(d, t)].count(c)
                == self.session_set.count(session_at(c, d, t)) by {
                lemma_cell_index_bijective(d, t, d0, t0);
                if d == d0 && t == t0 {
                    if c == class_id {
                        assert(session_at(c, d, t) == session);
                    } else {
                        assert(session_at(c, d, t) != session);
                    }
                } else {
                    assert(session_at(c, d, t) != session);
                }
            }
            assert forall|s: Session| #[trigger] self.session_set.count(s) > 0 implies s.t.day < DAY_COUNT
                && s.t.timeslot < TIMESLOT_COUNT && self.known(s.class_id) by {
                assert(old(self).session_set.count(s) > 0);
                assert(old(self).known(s.class_id));
                let x = choose|x: int| 0 <= x < old_schedules.len() && old_schedules[x].class_id == s.class_id;
                assert(self.class_schedules@[x].class_id == s.class_id);
            }
            assert forall|i2: int, d: int, t: int|
                0 <= i2 < self.class_schedules@.len() && 0 <= d < DAY_COUNT && 0 <= t < TIMESLOT_COUNT
                    implies #[trigger] self.class_schedules@[i2].counts@[cell_index(d, t)]
                == self.session_set.count(session_at(self.class_schedules@[i2].class_id, d, t)) by {
                lemma_cell_index_bijective(d, t, d0, t0);
                let ci = self.class_schedules@[i2].class_id;
                if d == d0 && t == t0 && ci == class_id {
                    assert(session_at(ci, d, t) == session);
                } else {
                    assert(session_at(ci, d, t) != session);
                }
            }
            assert forall|c: usize| self.known(c) == old(self).known(c) by {
                if old(self).known(c) {
                    let x = choose|x: int| 0 <= x < old_schedules.len() && old_schedules[x].class_id == c;
                    assert(self.class_schedules@[x].class_id == c);
                }
                if self.known(c) {
                    let x = choose|x: int| 0 <= x < self.class_schedules@.len() && self.class_schedules@[x].class_id == c;
                    assert(old_schedules[x].class_id == c);
                }
            }
            lemma_sum_update(
                DATA_LEN as int,
                |c2: int| old_matrix[c2].total() as int,
                |c2: int| new_matrix[c2].total() as int,
                cell as int,
                -1,
            );
        }
        Ok(())
    }

    /// Moves one session of class `class_id` from `source` to `target`, both in the
    /// week; fails, changing nothing, when the class has no schedule.
    pub fn move_session(&mut self, class_id: usize, source: DayTimeSlot, target: DayTimeSlot) -> (r:
        Result<(), ()>)
        requires
            old(self).wf(),
            source.day < DAY_COUNT,
            source.timeslot < TIMESLOT_COUNT,
            target.day < DAY_COUNT,
            target.timeslot < TIMESLOT_COUNT,
            old(self).count(Session { class_id, t: source }) > 0 || !old(self).known(class_id),
        ensures
            final(self).wf(),
            r is Ok <==> old(self).count(Session { class_id, t: source }) > 0,
            r is Ok ==> moved(*old(self), *final(self), Session { class_id, t: source }, Session { class_id, t: target }),
            r is Err ==> *final(self) == *old(self),
            forall|c: usize| #[trigger] class_time(*final(self), c) == class_time(*old(self), c),
    {
        let src = Session { class_id, t: source };
        let dst = Session { class_id, t: target };
        proof {
            old(self).session_set.lemma_wf();
        }
        match self.decrement_session(src) {
            Ok(()) => {
                self.increment_session(dst);
                proof {
                    assert forall|c: usize| #[trigger] class_time(*self, c) == class_time(*old(self), c) by {
                        lemma_move_keeps_class_time(*old(self), *self, class_id, source, target, c);
                    }
                }
                Ok(())
            },
            Err(()) => Err(()),
        }
    }

    /// Adds one session of class `class_id` on Monday at 08:00.
    pub fn increment_class_time(&mut self, class_id: usize)
        requires
            old(self).wf(),
            old(self).total() < usize::MAX,
        ensures
            final(self).wf(),
            final(self).count(session_at(class_id, 0, 0)) == old(self).count(session_at(class_id, 0, 0)) + 1,
            forall|s: Session| s != session_at(class_id, 0, 0) ==> final(self).count(s) == old(self).count(s),
            forall|c: usize| final(self).known(c) <==> (old(self).known(c) || c == class_id),
            final(self).total() == old(self).total() + 1,
    {
        self.increment_session(Session { class_id, t: DayTimeSlot { day: 0, timeslot: 0 } });
    }

    /// Removes the first session of class `class_id`, days in order and timeslots in
    /// order within a day; fails, changing nothing, when the class has no schedule or
    /// no session.
    pub fn decrement_class_time(&mut self, class_id: usize) -> (r: Result<(), ()>)
        requires
            old(self).wf(),
        ensures
            final(self).wf(),
            r is Ok <==> exists|d: int, t: int|
                0 <= d < DAY_COUNT && 0 <= t < TIMESLOT_COUNT && old(self).count(#[trigger] session_at(class_id, d, t)) > 0,
            r is Err ==> *final(self) == *old(self),
            r is Ok ==> exists|d: int, t: int|
                {
                    &&& 0 <= d < DAY_COUNT
                    &&& 0 <= t < TIMESLOT_COUNT
                    &&& old(self).count(session_at(class_id, d, t)) > 0
                    &&& forall|d2: int, t2: int|
                        0 <= d2 < DAY_COUNT && 0 <= t2 < TIMESLOT_COUNT && (d2 < d || (d2 == d && t2 < t))
                            ==> old(self).count(#[trigger] session_at(class_id, d2, t2)) == 0
                    &&& final(self).count(session_at(class_id, d, t)) == old(self).count(session_at(class_id, d, t)) - 1
                    &&& forall|s: Session| s != session_at(class_id, d, t) ==> #[trigger] final(self).count(s) == old(self).count(s)
                    &&& forall|c: usize| final(self).known(c) == old(self).known(c)
                },
    {
        let i = match self.find_schedule(class_id) {
            Some(i) => i,
            None => {
                proof {
                    assert forall|d: int, t: int| 0 <= d < DAY_COUNT && 0 <= t < TIMESLOT_COUNT implies !(old(self).count(
                        #[trigger] session_at(class_id, d, t),
                    ) > 0) by {
                        if old(self).session_set.count(session_at(class_id, d, t)) > 0 {
                            assert(old(self).known(class_id));
                        }
                    }
                }
                return Err(());
            },
        };
        let mut d: usize = 0;
        while d < DAY_COUNT
            invariant
                self.wf(),
                *self == *old(self),
                i < self.class_schedules@.len(),
                self.class_schedules@[i as int].class_id == class_id,
                d <= DAY_COUNT,
                forall|d2: int, t2: int|
                    0 <= d2 < d && 0 <= t2 < TIMESLOT_COUNT ==> self.count(#[trigger] session_at(class_id, d2, t2)) == 0,
            decreases DAY_COUNT - d,
        {
            let mut t: usize = 0;
            while t < TIMESLOT_COUNT
                invariant
                    self.wf(),
                    *self == *old(self),
                    i < self.class_schedules@.len(),
                    self.class_schedules@[i as int].class_id == class_id,
                    d < DAY_COUNT,
                    t <= TIMESLOT_COUNT,
                    forall|d2: int, t2: int|
                        0 <= d2 < d && 0 <= t2 < TIMESLOT_COUNT ==> self.count(#[trigger] session_at(class_id, d2, t2)) == 0,
                    forall|t2: int| 0 <= t2 < t ==> self.count(#[trigger] session_at(class_id, d as int, t2)) == 0,
                decreases TIMESLOT_COUNT - t,
            {
                let cell = d * TIMESLOT_COUNT + t;
                proof {
                    lemma_cell_index_bijective(d as int, t as int, d as int, t as int);
                }
                if self.class_schedules[i].counts[cell] > 0 {
                    let session = Session { class_id, t: DayTimeSlot { day: d, timeslot: t } };
                    proof {
                        assert(session == session_at(class_id, d as int, t as int));
                    }
                    let r = self.decrement_session(session);
                    proof {
                        assert forall|d2: int, t2: int|
                            0 <= d2 < DAY_COUNT && 0 <= t2 < TIMESLOT_COUNT && (d2 < d || (d2 == d && t2 < t))
                                implies old(self).count(#[trigger] session_at(class_id, d2, t2)) == 0 by {
                            if d2 == d {
                                assert(old(self).count(session_at(class_id, d as int, t2)) == 0);
                            }
                        }
                    }
                    return Ok(());
                }
                t = t + 1;
            }
            d = d + 1;
        }
        Err(())
    }

    /// Number of sessions of class `class_id` over the week, cell by cell.
    pub fn count_class_time(&self, class_id: usize) -> (r: usize)
        requires
            self.wf(),
        ensures
            r == sum_to(
                DATA_LEN as int,
                |c: int| self.count(session_at(class_id, c / TIMESLOT_COUNT as int, c % TIMESLOT_COUNT as int)) as int,
            ),
    {
        let ghost f = |c: int| self.count(session_at(class_id, c / TIMESLOT_COUNT as int, c % TIMESLOT_COUNT as int)) as int;
        let ghost totals = |c: int| self.schedule_matrix@[c].total() as int;
        proof {
            self.session_set.lemma_wf();
            assert forall|c: int| 0 <= c < DATA_LEN implies 0 <= #[trigger] totals(c) by {}
        }
        let mut count: usize = 0;
        let mut c: usize = 0;
        while c < DATA_LEN
            invariant
                self.wf(),
                c <= DATA_LEN,
                f == (|c2: int| self.count(session_at(class_id, c2 / TIMESLOT_COUNT as int, c2 % TIMESLOT_COUNT as int)) as int),
                totals == (|c2: int| self.schedule_matrix@[c2].total() as int),
                forall|c2: int| 0 <= c2 < DATA_LEN ==> 0 <= #[trigger] totals(c2),
                self.session_set.total() <= usize::MAX,
                count == sum_to(c as int, f),
                count <= sum_to(c as int, totals),
            decreases DATA_LEN - c,
        {
            let d = c / TIMESLOT_COUNT;
            let t = c % TIMESLOT_COUNT;
            proof {
                assert(c == cell_index(d as int, t as int));
                self.schedule_matrix@[c as int].lemma_wf();
                lemma_term_le_sum(DATA_LEN as int, totals, c as int);
                crate::sums::lemma_sum_monotone(c + 1, DATA_LEN as int, totals);
            }
            let v = self.schedule_matrix[c].get_count(&class_id);
            assert(sum_to(c + 1, f) == sum_to(c as int, f) + f(c as int));
            assert(sum_to(c + 1, totals) == sum_to(c as int, totals) + totals(c as int));
            count = count + v;
            c = c + 1;
        }
        count
    }

    /// Removes every session of class `class_id` and its schedule.
    pub fn remove_class(&mut self, class_id: usize)
        requires
            old(self).wf(),
        ensures
            final(self).wf(),
            forall|s: Session| s.class_id == class_id ==> #[trigger] final(self).count(s) == 0,
            forall|s: Session| s.class_id != class_id ==> #[trigger] final(self).count(s) == old(self).count(s),
            forall|c: usize| final(self).known(c) <==> (old(self).known(c) && c != class_id),
    {
        let ghost old_schedules = self.class_schedules@;
        let mut c: usize = 0;
        while c < DATA_LEN
            invariant
                self.schedule_matrix@.len() == DATA_LEN,
                forall|x: int| 0 <= x < DATA_LEN ==> (#[trigger] self.schedule_matrix@[x]).wf(),
                self.session_set.wf(),
                self.class_schedules@ == old_schedules,
                old_schedules == old(self).class_schedules@,
                c <= DATA_LEN,
                forall|s: Session|
                    #[trigger] self.session_set.count(s) > 0 ==> s.t.day < DAY_COUNT && s.t.timeslot
                        < TIMESLOT_COUNT,
                forall|c2: usize, d: int, t: int|
                    0 <= d < DAY_COUNT && 0 <= t < TIMESLOT_COUNT ==> #[trigger] self.schedule_matrix@[cell_index(
                        d,
                        t,
                    )].count(c2) == self.session_set.count(session_at(c2, d, t)),
                forall|s: Session| s.class_id != class_id ==> #[trigger] self.session_set.count(s) == old(self).session_set.count(s),
                forall|d: int, t: int|
                    0 <= d < DAY_COUNT && 0 <= t < TIMESLOT_COUNT && cell_index(d, t) < c ==> self.session_set.count(
                        #[trigger] session_at(class_id, d, t),
                    ) == 0,
                forall|d: int, t: int|
                    0 <= d < DAY_COUNT && 0 <= t < TIMESLOT_COUNT && cell_index(d, t) >= c ==> self.session_set.count(
                        #[trigger] session_at(class_id, d, t),
                    ) == old(self).session_set.count(session_at(class_id, d, t)),
                sum_to(DATA_LEN as int, |x: int| self.schedule_matrix@[x].total() as int)
                    == self.session_set.total(),
            decreases DATA_LEN - c,
        {
            let d = c / TIMESLOT_COUNT;
            let t = c % TIMESLOT_COUNT;
            let session = Session { class_id, t: DayTimeSlot { day: d, timeslot: t } };
            let ghost old_matrix = self.schedule_matrix@;
            let ghost before = self.session_set;
            proof {
                assert(c == cell_index(d as int, t as int));
                assert(session == session_at(class_id, d as int, t as int));
                lemma_cell_index_bijective(d as int, t as int, d as int, t as int);
            }
            self.schedule_matrix[c].remove(&class_id);
            self.session_set.remove(&session);
            proof {
                let new_matrix = self.schedule_matrix@;
                let v = old_matrix[c as int].count(class_id);
                assert(v == before.count(session));
                assert forall|x: int| 0 <= x < DATA_LEN && x != c implies #[trigger] new_matrix[x] == old_matrix[x] by {}
                assert forall|c2: usize, d2: int, t2: int|
                    0 <= d2 < DAY_COUNT && 0 <= t2 < TIMESLOT_COUNT implies #[trigger] new_matrix[cell_index(d2, t2)].count(c2)
                    == self.session_set.count(session_at(c2, d2, t2)) by {
                    lemma_cell_index_bijective(d2, t2, d as int, t as int);
                    if !(d2 == d && t2 == t && c2 == class_id) {
                        assert(session_at(c2, d2, t2) != session);
                    }
                }
                assert forall|d2: int, t2: int|
                    0 <= d2 < DAY_COUNT && 0 <= t2 < TIMESLOT_COUNT && cell_index(d2, t2) >= c + 1 implies self.session_set.count(
                    #[trigger] session_at(class_id, d2, t2),
                ) == old(self).session_set.count(session_at(class_id, d2, t2)) by {
                    lemma_cell_index_bijective(d2, t2, d as int, t as int);
                    assert(session_at(class_id, d2, t2) != session);
                }
                assert forall|d2: int, t2: int|
                    0 <= d2 < DAY_COUNT && 0 <= t2 < TIMESLOT_COUNT && cell_index(d2, t2) < c + 1 implies self.session_set.count(
                    #[trigger] session_at(class_id, d2, t2),
                ) == 0 by {
                    lemma_cell_index_bijective(d2, t2, d as int, t as int);
                    if cell_index(d2, t2) != c {
                        assert(session_at(class_id, d2, t2) != session);
                    }
                }
                lemma_sum_update(
                    DATA_LEN as int,
                    |x: int| old_matrix[x].total() as int,
                    |x: int| new_matrix[x].total() as int,
                    c as int,
                    -(v as int),
                );
            }
            c = c + 1;
        }
        match self.find_schedule(class_id) {
            Some(i) => {
                self.class_schedules.remove(i);
                proof {
                    assert forall|x: int| 0 <= x < self.class_schedules@.len() implies #[trigger] self.class_schedules@[x]
                        == old_schedules[if x < i { x } else { x + 1 }] by {}
                    assert forall|c2: usize| self.known(c2) <==> (old(self).known(c2) && c2 != class_id) by {
                        if self.known(c2) {
                            let x = choose|x: int| 0 <= x < self.class_schedules@.len() && self.class_schedules@[x].class_id == c2;
                            let y = if x < i { x } else { x + 1 };
                            assert(old_schedules[y].class_id == c2);
                            if c2 == class_id {
                                assert(old_schedules[y].class_id != old_schedules[i as int].class_id);
                            }
                        }
                        if old(self).known(c2) && c2 != class_id {
                            let x = choose|x: int| 0 <= x < old_schedules.len() && old_schedules[x].class_id == c2;
                            if x < i {
                                assert(self.class_schedules@[x].class_id == c2);
                            } else {
                                assert(x != i);
                                assert(self.class_schedules@[x - 1].class_id == c2);
                            }
                        }
                    }
                }
            },
            None => {
                proof {
                    assert forall|c2: usize| self.known(c2) <==> (old(self).known(c2) && c2 != class_id) by {
                        if self.known(c2) {
                            let x = choose|x: int| 0 <= x < self.class_schedules@.len() && self.class_schedules@[x].class_id == c2;
                            assert(old_schedules[x].class_id == c2);
                        }
                        if old(self).known(c2) && c2 != class_id {
                            let x = choose|x: int| 0 <= x < old_schedules.len() && old_schedules[x].class_id == c2;
                            assert(self.class_schedules@[x].class_id == c2);
                        }
                    }
                }
            },
        }
        proof {
            assert forall|s: Session| s.class_id == class_id implies #[trigger] self.session_set.count(s) == 0 by {
                if self.session_set.count(s) > 0 {
                    let d = s.t.day as int;
                    let t = s.t.timeslot as int;
                    assert(s == session_at(class_id, d, t));
                    lemma_cell_index_bijective(d, t, d, t);
                }
            }
        }
    }

    /// A calendar with the same sessions and the same classes with a schedule.
    pub fn copy(&self) -> (r: CalendarState)
        requires
            self.wf(),
        ensures
            r.wf(),
            forall|s: Session| #[trigger] r.count(s) == self.count(s),
            forall|c: usize| #[trigger] r.known(c) == self.known(c),
            r.total() == self.total(),
    {
        let mut schedules: Vec<ClassSchedule> = Vec::new();
        let mut i: usize = 0;
        while i < self.class_schedules.len()
            invariant
                i <= self.class_schedules@.len(),
                schedules@.len() == i,
                forall|j: int|
                    0 <= j < i ==> (#[trigger] schedules@[j]).class_id == self.class_schedules@[j].class_id
                        && schedules@[j].counts@ == self.class_schedules@[j].counts@,
            decreases self.class_schedules@.len() - i,
        {
            let source = &self.class_schedules[i];
            let mut counts: Vec<usize> = Vec::new();
            let mut c: usize = 0;
            while c < source.counts.len()
                invariant
                    c <= source.counts@.len(),
                    counts@ == source.counts@.subrange(0, c as int),
                decreases source.counts@.len() - c,
            {
                counts.push(source.counts[c]);
                c = c + 1;
            }
            assert(counts@ =~= source.counts@);
            schedules.push(ClassSchedule { class_id: source.class_id, counts });
            i = i + 1;
        }
        let mut matrix: Vec<RealCounter<usize>> = Vec::new();
        let mut m: usize = 0;
        while m < self.schedule_matrix.len()
            invariant
                self.wf(),
                m <= self.schedule_matrix@.len(),
                matrix@.len() == m,
                forall|j: int|
                    0 <= j < m ==> (#[trigger] matrix@[j]).wf() && matrix@[j].total()
                        == self.schedule_matrix@[j].total() && forall|c: usize|
                        #[trigger] matrix@[j].count(c) == self.schedule_matrix@[j].count(c),
            decreases self.schedule_matrix@.len() - m,
        {
            matrix.push(self.schedule_matrix[m].copy());
            m = m + 1;
        }
        let r = CalendarState {
            class_schedules: schedules,
            schedule_matrix: matrix,
            session_set: self.session_set.copy(),
        };
        proof {
            assert forall|c: usize| #[trigger] r.known(c) == self.known(c) by {
                if self.known(c) {
                    let i = choose|i: int|
                        0 <= i < self.class_schedules@.len() && self.class_schedules@[i].class_id == c;
                    assert(r.class_schedules@[i].class_id == c);
                }
                if r.known(c) {
                    let i = choose|i: int|
                        0 <= i < r.class_schedules@.len() && r.class_schedules@[i].class_id == c;
                    assert(self.class_schedules@[i].class_id == c);
                }
            }
            assert forall|i: int, j: int|
                0 <= i < j < r.class_schedules@.len() implies r.class_schedules@[i].class_id
                != r.class_schedules@[j].class_id by {
                assert(self.class_schedules@[i].class_id != self.class_schedules@[j].class_id);
            }
            assert forall|i: int|
                0 <= i < r.class_schedules@.len() implies (#[trigger] r.class_schedules@[i]).counts@.len()
                == DATA_LEN by {
                assert(self.class_schedules@[i].counts@.len() == DATA_LEN);
            }
            assert forall|i: int, d: int, t: int|
                0 <= i < r.class_schedules@.len() && 0 <= d < DAY_COUNT && 0 <= t < TIMESLOT_COUNT
                    implies #[trigger] r.class_schedules@[i].counts@[cell_index(d, t)]
                == r.session_set.count(session_at(r.class_schedules@[i].class_id, d, t)) by {
                assert(self.class_schedules@[i].counts@[cell_index(d, t)] == self.session_set.count(
                    session_at(self.class_schedules@[i].class_id, d, t),
                ));
            }
            assert forall|c: usize, d: int, t: int|
                0 <= d < DAY_COUNT && 0 <= t < TIMESLOT_COUNT implies #[trigger] r.schedule_matrix@[cell_index(
                    d,
                    t,
                )].count(c) == r.session_set.count(session_at(c, d, t)) by {
                lemma_cell_index_bijective(d, t, d, t);
                assert(self.schedule_matrix@[cell_index(d, t)].count(c) == self.session_set.count(
                    session_at(c, d, t),
                ));
            }
            assert forall|s: Session| #[trigger] r.session_set.count(s) > 0 implies s.t.day < DAY_COUNT
                && s.t.timeslot < TIMESLOT_COUNT && r.known(s.class_id) by {
                assert(self.session_set.count(s) > 0);
                assert(self.known(s.class_id));
                assert(r.known(s.class_id) == self.known(s.class_id));
            }
            lemma_sum_ext(
                DATA_LEN as int,
                |c: int| r.schedule_matrix@[c].total() as int,
                |c: int| self.schedule_matrix@[c].total() as int,
            );
        }
        r
    }

    /// A calendar that differs from this one by one random move of a session: within
    /// its day to the timeslot before or after, or to the day before or after and any
    /// timeslot. `None` when there is no session.
    #[verifier::spinoff_prover]
    pub fn get_random_neighbor(&self, rng: &mut ChaCha8Rng) -> (r: Option<CalendarState>)
        requires
            self.wf(),
        ensures
            r is None <==> forall|s: Session| self.count(s) == 0,
            r matches Some(neighbor) ==> neighbor.wf() && is_neighbor(*self, neighbor),
    {
        let session = match random_session(self, rng) {
            None => {
                return None;
            },
            Some(s) => s,
        };
        let source = session.t;
        let target = if random_below(rng, 2) == 0 {
            let timeslot = random_shift_bounded(source.timeslot, UsizeRange { start: 0, end: TIMESLOT_COUNT }, rng);
            assert(timeslot == shift_bounded(source.timeslot as int, 0, TIMESLOT_COUNT as int, true)
                || timeslot == shift_bounded(source.timeslot as int, 0, TIMESLOT_COUNT as int, false));
            DayTimeSlot { day: source.day, timeslot }
        } else {
            let day = random_shift_bounded(source.day, UsizeRange { start: 0, end: DAY_COUNT }, rng);
            assert(day == shift_bounded(source.day as int, 0, DAY_COUNT as int, true) || day == shift_bounded(
                source.day as int,
                0,
                DAY_COUNT as int,
                false,
            ));
            DayTimeSlot { day, timeslot: random_below(rng, TIMESLOT_COUNT) }
        };
        assert((target.day == source.day && (target.timeslot == shift_bounded(
            source.timeslot as int,
            0,
            TIMESLOT_COUNT as int,
            true,
        ) || target.timeslot == shift_bounded(source.timeslot as int, 0, TIMESLOT_COUNT as int, false)))
            || target.day == shift_bounded(source.day as int, 0, DAY_COUNT as int, true) || target.day
            == shift_bounded(source.day as int, 0, DAY_COUNT as int, false));
        let mut neighbor = self.copy();
        let ghost before = neighbor;
        let src = Session { class_id: session.class_id, t: source };
        let dst = Session { class_id: session.class_id, t: target };
        proof {
            assert(src == session);
            assert(target.day < DAY_COUNT && target.timeslot < TIMESLOT_COUNT);
            assert(before.count(src) > 0);
        }
        let result = neighbor.move_session(session.class_id, source, target);
        proof {
            assert(result is Ok);
            assert(moved(before, neighbor, src, dst));
            assert forall|s2: Session| #[trigger] neighbor.count(s2) == self.count(s2) - (if s2 == src {
                1int
            } else {
                0int
            }) + (if s2 == dst {
                1int
            } else {
                0int
            }) by {
                assert(before.count(s2) == self.count(s2));
            }
            assert forall|c: usize| neighbor.known(c) == self.known(c) by {
                assert(before.known(c) == self.known(c));
            }
            assert(moved(*self, neighbor, src, dst));
            assert(self.count(src) > 0 && dst.class_id == src.class_id && dst.t.day < DAY_COUNT
                && dst.t.timeslot < TIMESLOT_COUNT);
            assert(is_neighbor(*self, neighbor));
        }
        Some(neighbor)
    }

    /// Removes every session and every schedule.
    pub fn clear(&mut self)
        ensures
            final(self).wf(),
            forall|s: Session| final(self).count(s) == 0,
            forall|c: usize| !final(self).known(c),
            final(self).total() == 0,
    {
        *self = CalendarState::new();
    }

    /// The per-class schedules: for each class with a schedule, its counts per cell.
    pub fn get_class_schedules(&self) -> (r: &Vec<ClassSchedule>)
        requires
            self.wf(),
        ensures
            forall|c: usize| self.known(c) <==> exists|i: int| 0 <= i < r@.len() && r@[i].class_id == c,
            forall|i: int, j: int| 0 <= i < j < r@.len() ==> r@[i].class_id != r@[j].class_id,
            forall|i: int, d: int, t: int|
                0 <= i < r@.len() && 0 <= d < DAY_COUNT && 0 <= t < TIMESLOT_COUNT ==> #[trigger] r@[i].counts@[cell_index(
                    d,
                    t,
                )] == self.count(session_at(r@[i].class_id, d, t)),
            forall|i: int| 0 <= i < r@.len() ==> (#[trigger] r@[i]).counts@.len() == DATA_LEN,
            r@.map_values(|cs: ClassSchedule| cs.class_id) == self.class_ids(),
    {
        &self.class_schedules
    }

    /// The counter of sessions.
    pub fn get_session_set(&self) -> (r: &RealCounter<Session>)
        requires
            self.wf(),
        ensures
            r.wf(),
            forall|s: Session| #[trigger] r.count(s) == self.count(s),
            r.total() == self.total(),
            r.key_seq() == self.sessions(),
    {
        &self.session_set
    }

    /// Per cell of the week, the counter of classes present there.
    pub fn get_schedule_matrix(&self) -> (r: &Vec<RealCounter<usize>>)
        requires
            self.wf(),
        ensures
            r@.len() == DATA_LEN,
            forall|i: int| 0 <= i < DATA_LEN ==> (#[trigger] r@[i]).wf(),
            forall|c: usize, d: int, t: int|
                0 <= d < DAY_COUNT && 0 <= t < TIMESLOT_COUNT ==> #[trigger] r@[cell_index(d, t)].count(c)
                    == self.count(session_at(c, d, t)),
            forall|d: int, t: int|
                0 <= d < DAY_COUNT && 0 <= t < TIMESLOT_COUNT ==> #[trigger] r@[cell_index(d, t)].total()
                    == self.cell_total(d, t),
            forall|d: int, t: int|
                0 <= d < DAY_COUNT && 0 <= t < TIMESLOT_COUNT ==> #[trigger] r@[cell_index(d, t)].key_seq()
                    == self.cell_classes(d, t),
    {
        &self.schedule_matrix
    }
}

impl Default for CalendarState {
    fn default() -> (r: CalendarState)
        ensures
            r.wf(),
            forall|s: Session| r.count(s) == 0,
            forall|c: usize| !r.known(c),
            r.total() == 0,
    {
        CalendarState::new()
    }
}

/// A read-only view of a calendar, to be drawn.
pub struct CalendarWidget<'a> {
    pub state: &'a CalendarState,
}

impl<'a> CalendarWidget<'a> {
    /// A view of `calendar_state`.
    pub fn new(calendar_state: &'a CalendarState) -> (r: CalendarWidget<'a>)
        ensures
            *r.state == *calendar_state,
    {
        CalendarWidget { state: calendar_state }
    }
}

/// `x - 1` or `x + 1`, whichever stays in `start..end`; when both do, the coin
/// decides (`true` for `x - 1`); when neither does, `x`.
pub open spec fn shift_bounded(x: int, start: int, end: int, coin: bool) -> int {
    let smaller = start < x;
    let larger = end > x + 1;
    if !smaller && !larger {
        x
    } else if !smaller {
        x + 1
    } else if !larger {
        x - 1
    } else if coin {
        x - 1
    } else {
        x + 1
    }
}

/// Moves `x` one step, down or up at random, staying in `range` (`x` itself when
/// neither step stays in it).
pub fn random_shift_bounded(x: usize, range: UsizeRange, rng: &mut ChaCha8Rng) -> (r: usize)
    requires
        x < usize::MAX,
    ensures
        r == shift_bounded(x as int, range.start as int, range.end as int, true) || r == shift_bounded(
            x as int,
            range.start as int,
            range.end as int,
            false,
        ),
{
    let smaller_available = range.start < x;
    let larger_available = range.end > x + 1;
    if !smaller_available && !larger_available {
        return x;
    }
    if !smaller_available && larger_available {
        return x + 1;
    }
    if smaller_available && !larger_available {
        return x - 1;
    }
    if random_ratio(rng, 1, 2) {
        x - 1
    } else {
        x + 1
    }
}

/// A way to change a calendar a little, at random.
pub trait Perturbator {
    /// Changes `state` a little, keeping it well formed.
    fn perturbate(&self, state: &mut CalendarState, rng: &mut ChaCha8Rng)
        requires
            old(state).wf(),
        ensures
            final(state).wf(),
    ;
}

/// Moves a random session one timeslot earlier or later on the same day.
pub struct MoveHour;

impl MoveHour {
    pub fn new() -> (r: MoveHour) {
        MoveHour
    }
}

/// Moves a random session to a neighbouring day, at a random timeslot.
pub struct MoveDay;

impl MoveDay {
    pub fn new() -> (r: MoveDay) {
        MoveDay
    }
}

/// A session of the calendar, drawn at random; none when the calendar is empty.
fn random_session(state: &CalendarState, rng: &mut ChaCha8Rng) -> (r: Option<Session>)
    requires
        state.wf(),
    ensures
        r is None <==> forall|s: Session| state.count(s) == 0,
        r matches Some(s) ==> state.count(s) > 0 && s.t.day < DAY_COUNT && s.t.timeslot < TIMESLOT_COUNT,
{
    let keys = state.session_set.keys();
    proof {
        state.lemma_sessions();
    }
    if keys.len() == 0 {
        return None;
    }
    let i = random_below(rng, keys.len());
    proof {
        assert(state.session_set.key_seq().contains(keys@[i as int]));
    }
    Some(keys[i])
}

impl Perturbator for MoveHour {
    /// Moves a random session one timeslot earlier or later on its day (from the first
    /// timeslot always later, from the last always earlier); an empty calendar stays
    /// as it is.
    fn perturbate(&self, state: &mut CalendarState, rng: &mut ChaCha8Rng)
        ensures
            (forall|s: Session| old(state).count(s) == 0) ==> *final(state) == *old(state),
            !(forall|s: Session| old(state).count(s) == 0) ==> exists|src: Session, dst: Session|
                {
                    &&& old(state).count(src) > 0
                    &&& dst.class_id == src.class_id
                    &&& dst.t.day == src.t.day
                    &&& (dst.t.timeslot == src.t.timeslot + 1 || dst.t.timeslot + 1 == src.t.timeslot)
                    &&& dst.t.timeslot < TIMESLOT_COUNT
                    &&& moved(*old(state), *final(state), src, dst)
                },
    {
        let s = random_session(state, rng);
        let session = match s {
            None => {
                return;
            },
            Some(session) => session,
        };
        let source = session.t;
        let target_timeslot = if source.timeslot == 0 {
            source.timeslot + 1
        } else if source.timeslot == TIMESLOT_COUNT - 1 {
            source.timeslot - 1
        } else if random_ratio(rng, 1, 2) {
            source.timeslot + 1
        } else {
            source.timeslot - 1
        };
        let target = DayTimeSlot { day: source.day, timeslot: target_timeslot };
        let r = state.move_session(session.class_id, source, target);
    }
}

impl Perturbator for MoveDay {
    /// Moves a random session to the next or the previous day (from the first day
    /// always the next, from the last always the previous), at a random timeslot; an
    /// empty calendar stays as it is.
    fn perturbate(&self, state: &mut CalendarState, rng: &mut ChaCha8Rng)
        ensures
            (forall|s: Session| old(state).count(s) == 0) ==> *final(state) == *old(state),
            !(forall|s: Session| old(state).count(s) == 0) ==> exists|src: Session, dst: Session|
                {
                    &&& old(state).count(src) > 0
                    &&& dst.class_id == src.class_id
                    &&& (dst.t.day == src.t.day + 1 || dst.t.day + 1 == src.t.day)
                    &&& dst.t.day < DAY_COUNT
                    &&& dst.t.timeslot < TIMESLOT_COUNT
                    &&& moved(*old(state), *final(state), src, dst)
                },
    {
        let s = random_session(state, rng);
        let session = match s {
            None => {
                return;
            },
            Some(session) => session,
        };
        let source = session.t;
        let target_day = if source.day == 0 {
            source.day + 1
        } else if source.day == DAY_COUNT - 1 {
            source.day - 1
        } else if random_ratio(rng, 1, 2) {
            source.day + 1
        } else {
            source.day - 1
        };
        let target = DayTimeSlot { day: target_day, timeslot: random_below(rng, TIMESLOT_COUNT) };
        let r = state.move_session(session.class_id, source, target);
    }
}

} // verus!
