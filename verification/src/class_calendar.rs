//! The calendar of class sessions: for every class, how many of its one-hour
//! sessions sit in each cell of the week, together with the list of those sessions.
use vstd::prelude::*;
use vstd::multiset::Multiset;
use rand_chacha::ChaCha8Rng;

use crate::constraints::ClassKey;
use crate::random::random_below;
use crate::sums::{lemma_sum_ext, lemma_sum_update, lemma_sum_zero, sum_to};
use crate::week_calendar::{
    cell_index, lemma_cell_index_bijective, Day, Timeslot, WeekCalendar, DATA_LEN, DAY_COUNT, TIMESLOT_COUNT,
};

verus! {

/// One session of a class, placed in a day and a timeslot.
#[derive(Clone, Copy, Debug)]
pub struct SingleClassEntry {
    pub day: Day,
    pub timeslot: Timeslot,
    pub class_key: ClassKey,
}

/// The (class, cell) a session occupies.
pub open spec fn entry_slot(e: SingleClassEntry) -> (int, int) {
    (e.class_key.0 as int, cell_index(e.day.index() as int, e.timeslot.index() as int))
}

/// The (class, cell) of every session of a list.
pub open spec fn entry_slots(entries: Seq<SingleClassEntry>) -> Seq<(int, int)> {
    entries.map_values(|e: SingleClassEntry| entry_slot(e))
}

/// A move of one session of a class from a source to a destination cell.
#[derive(Clone, Copy, Debug)]
pub struct ClassEntryDelta {
    pub class_key: ClassKey,
    pub src_day: Day,
    pub src_timeslot: Timeslot,
    pub dst_day: Day,
    pub dst_timeslot: Timeslot,
}

/// Why a random move was not made.
#[derive(Debug)]
pub enum MoveOneClassRandomError {
    /// The chosen destination already holds the most sessions a cell can count.
    RandomChosenDestinationFull,
    /// There is no session to move.
    NoClassesToMove,
}

/// Why a session was not added.
#[derive(Debug)]
pub enum AddOneClassError {
    /// The destination already holds the most sessions a cell can count.
    DestinationFull,
}

/// Why a session was not removed from a given cell.
#[derive(Debug)]
pub enum RemoveOneClassError {
    /// The cell holds no session of the class.
    SourceEmpty,
}

/// Why a session was not removed from anywhere.
#[derive(Debug)]
pub enum RemoveOneClassAnywhereError {
    /// The class has no session at all.
    NoClasses,
}

/// Session counts per class and cell, and the list of the sessions.
#[derive(Clone, Debug)]
pub struct ClassCalendar {
    data: Vec<WeekCalendar<u8>>,
    class_entries: Vec<SingleClassEntry>,
}

/// `counts` with the count of `class` in `cell` replaced by `value`.
pub open spec fn set_count(counts: Seq<Seq<u8>>, class: int, cell: int, value: u8) -> Seq<Seq<u8>> {
    counts.update(class, counts[class].update(cell, value))
}

/// `counts` after one session of `class` went from cell `src` to cell `dst`.
pub open spec fn move_count(counts: Seq<Seq<u8>>, class: int, src: int, dst: int) -> Seq<Seq<u8>> {
    let mid = set_count(counts, class, src, (counts[class][src] - 1) as u8);
    set_count(mid, class, dst, (mid[class][dst] + 1) as u8)
}

/// Adding a session to a cell and then removing one from it gives back the counts.
pub proof fn lemma_add_then_remove(counts: Seq<Seq<u8>>, class: int, cell: int)
    requires
        0 <= class < counts.len(),
        0 <= cell < counts[class].len(),
        counts[class][cell] < 255,
    ensures
        ({
            let added = set_count(counts, class, cell, (counts[class][cell] + 1) as u8);
            set_count(added, class, cell, (added[class][cell] - 1) as u8) == counts
        }),
{
    let added = set_count(counts, class, cell, (counts[class][cell] + 1) as u8);
    assert(set_count(added, class, cell, (added[class][cell] - 1) as u8)[class] =~= counts[class]);
    assert(set_count(added, class, cell, (added[class][cell] - 1) as u8) =~= counts);
}

/// Replacing a sequence by the same sequence with one element changed changes its
/// multiset by that one element.
proof fn lemma_update_multiset<A>(u: Seq<A>, i: int, x: A)
    requires
        0 <= i < u.len(),
    ensures
        u.update(i, x).to_multiset() =~= u.to_multiset().remove(u[i]).insert(x),
{
    broadcast use vstd::seq_lib::group_to_multiset_ensures;

    let v = u.update(i, x);
    assert(v.remove(i) =~= u.remove(i));
    assert(v[i] == x);
    assert(v.contains(x));
    assert(v.to_multiset().count(x) > 0);
}

/// `Vec::swap_remove` takes exactly the removed element out of the multiset.
proof fn lemma_swap_remove_multiset<A>(s: Seq<A>, i: int)
    requires
        0 <= i < s.len(),
    ensures
        s.update(i, s.last()).drop_last().to_multiset() =~= s.to_multiset().remove(s[i]),
{
    broadcast use vstd::seq_lib::group_to_multiset_ensures;

    let n = s.len() as int;
    if i == n - 1 {
        assert(s.update(i, s.last()) =~= s);
        assert(s.drop_last() =~= s.remove(n - 1));
    } else {
        let u = s.drop_last();
        assert(s.update(i, s.last()).drop_last() =~= u.update(i, s.last()));
        lemma_update_multiset(u, i, s.last());
        assert(u =~= s.remove(n - 1));
        assert(u.to_multiset() =~= s.to_multiset().remove(s[n - 1]));
        assert(u[i] == s[i]);
        assert(s.contains(s[i]));
        assert(s.to_multiset().count(s[i]) > 0);
        assert(s.to_multiset().count(s[n - 1]) > 0);
    }
}


/// Number of slots of a multiset of (class, cell) slots that fall in (`d`, `t`), over
/// classes `0..n`.
spec fn slots_in_cell(ms: Multiset<(int, int)>, n: int, d: int, t: int) -> int {
    sum_to(n, |k: int| ms.count((k, cell_index(d, t))) as int)
}

/// Number of slots that fall on day `d`, over classes `0..n`.
spec fn slots_in_day(ms: Multiset<(int, int)>, n: int, d: int) -> int {
    sum_to(TIMESLOT_COUNT as int, |t: int| slots_in_cell(ms, n, d, t))
}

/// Number of slots that fall in the week, over classes `0..n`.
spec fn slots_in_week(ms: Multiset<(int, int)>, n: int) -> int {
    sum_to(DAY_COUNT as int, |d: int| slots_in_day(ms, n, d))
}

/// The slots of a list of sessions of classes `0..n`, all inside the week, add up over
/// the week to the length of the list.
proof fn lemma_slots_in_week(es: Seq<SingleClassEntry>, n: int)
    requires
        0 <= n,
        forall|i: int|
            0 <= i < es.len() ==> {
                let e = #[trigger] es[i];
                &&& e.class_key.0 < n
                &&& e.day.index() < DAY_COUNT
                &&& e.timeslot.index() < TIMESLOT_COUNT
            },
    ensures
        slots_in_week(entry_slots(es).to_multiset(), n) == es.len(),
    decreases es.len(),
{
    broadcast use vstd::seq_lib::group_to_multiset_ensures;

    let ms = entry_slots(es).to_multiset();
    if es.len() == 0 {
        assert(entry_slots(es) =~= Seq::<(int, int)>::empty());
        assert forall|d: int| 0 <= d < DAY_COUNT implies #[trigger] slots_in_day(ms, n, d) == 0 by {
            assert forall|t: int| 0 <= t < TIMESLOT_COUNT implies #[trigger] slots_in_cell(ms, n, d, t)
                == 0 by {
                lemma_sum_zero(n, |k: int| ms.count((k, cell_index(d, t))) as int);
            }
            lemma_sum_zero(TIMESLOT_COUNT as int, |t: int| slots_in_cell(ms, n, d, t));
        }
        lemma_sum_zero(DAY_COUNT as int, |d: int| slots_in_day(ms, n, d));
    } else {
        let es0 = es.drop_last();
        let e = es.last();
        assert forall|i: int| 0 <= i < es0.len() implies {
            let e2 = #[trigger] es0[i];
            &&& e2.class_key.0 < n
            &&& e2.day.index() < DAY_COUNT
            &&& e2.timeslot.index() < TIMESLOT_COUNT
        } by {
            assert(es0[i] == es[i]);
        }
        lemma_slots_in_week(es0, n);
        let ms0 = entry_slots(es0).to_multiset();
        assert(entry_slots(es) =~= entry_slots(es0).push(entry_slot(e)));
        assert(ms =~= ms0.insert(entry_slot(e)));
        assert(e == es[es.len() - 1]);
        let k0 = e.class_key.0 as int;
        let d0 = e.day.index() as int;
        let t0 = e.timeslot.index() as int;
        assert forall|d: int, t: int|
            0 <= d < DAY_COUNT && 0 <= t < TIMESLOT_COUNT && !(d == d0 && t == t0) implies #[trigger] slots_in_cell(
            ms,
            n,
            d,
            t,
        ) == slots_in_cell(ms0, n, d, t) by {
            lemma_cell_index_bijective(d, t, d0, t0);
            lemma_sum_ext(
                n,
                |k: int| ms0.count((k, cell_index(d, t))) as int,
                |k: int| ms.count((k, cell_index(d, t))) as int,
            );
        }
        lemma_sum_update(
            n,
            |k: int| ms0.count((k, cell_index(d0, t0))) as int,
            |k: int| ms.count((k, cell_index(d0, t0))) as int,
            k0,
            1,
        );
        assert(slots_in_cell(ms, n, d0, t0) == slots_in_cell(ms0, n, d0, t0) + 1);
        assert forall|d: int| 0 <= d < DAY_COUNT && d != d0 implies #[trigger] slots_in_day(ms, n, d)
            == slots_in_day(ms0, n, d) by {
            lemma_sum_ext(
                TIMESLOT_COUNT as int,
                |t: int| slots_in_cell(ms0, n, d, t),
                |t: int| slots_in_cell(ms, n, d, t),
            );
        }
        lemma_sum_update(
            TIMESLOT_COUNT as int,
            |t: int| slots_in_cell(ms0, n, d0, t),
            |t: int| slots_in_cell(ms, n, d0, t),
            t0,
            1,
        );
        lemma_sum_update(
            DAY_COUNT as int,
            |d: int| slots_in_day(ms0, n, d),
            |d: int| slots_in_day(ms, n, d),
            d0,
            1,
        );
    }
}

/// In a list of sessions that all lie in the week, a session of the week occurs as
/// often as its (class, cell) slot.
proof fn lemma_entry_count_is_slot_count(es: Seq<SingleClassEntry>, e: SingleClassEntry)
    requires
        e.day.index() < DAY_COUNT,
        e.timeslot.index() < TIMESLOT_COUNT,
        forall|i: int|
            0 <= i < es.len() ==> (#[trigger] es[i]).day.index() < DAY_COUNT && es[i].timeslot.index()
                < TIMESLOT_COUNT,
    ensures
        es.to_multiset().count(e) == entry_slots(es).to_multiset().count(entry_slot(e)),
    decreases es.len(),
{
    broadcast use vstd::seq_lib::group_to_multiset_ensures;

    if es.len() == 0 {
        assert(entry_slots(es) =~= Seq::<(int, int)>::empty());
        assert(es =~= Seq::<SingleClassEntry>::empty());
    } else {
        let es0 = es.drop_last();
        let x = es.last();
        assert forall|i: int| 0 <= i < es0.len() implies (#[trigger] es0[i]).day.index() < DAY_COUNT
            && es0[i].timeslot.index() < TIMESLOT_COUNT by {
            assert(es0[i] == es[i]);
        }
        lemma_entry_count_is_slot_count(es0, e);
        assert(x == es[es.len() - 1]);
        assert(es =~= es0.push(x));
        assert(entry_slots(es) =~= entry_slots(es0).push(entry_slot(x)));
        lemma_cell_index_bijective(
            x.day.index() as int,
            x.timeslot.index() as int,
            e.day.index() as int,
            e.timeslot.index() as int,
        );
        Day::lemma_index_injective(x.day, e.day);
        Timeslot::lemma_index_injective(x.timeslot, e.timeslot);
        assert(x == e <==> entry_slot(x) == entry_slot(e));
        assert(es.to_multiset() =~= es0.to_multiset().insert(x));
        assert(entry_slots(es).to_multiset() =~= entry_slots(es0).to_multiset().insert(entry_slot(x)));
    }
}

impl ClassCalendar {
    /// Number of classes of the calendar.
    pub closed spec fn num_classes(self) -> nat {
        self.data@.len()
    }

    /// The session counts: `counts()[k][c]` is the number of sessions of class `k`
    /// in cell `c`.
    pub closed spec fn counts(self) -> Seq<Seq<u8>> {
        self.data@.map_values(|w: WeekCalendar<u8>| w@)
    }

    /// Number of sessions of class `k` in (`day`, `timeslot`).
    pub open spec fn count(self, k: int, day: int, timeslot: int) -> int {
        self.counts()[k][cell_index(day, timeslot)] as int
    }

    /// The list of sessions.
    pub closed spec fn entries(self) -> Seq<SingleClassEntry> {
        self.class_entries@
    }

    /// Well-formedness: every class has a full week of counts, every session lies in
    /// the week and belongs to a class of the calendar, and each count is the number
    /// of sessions in its cell.
    pub closed spec fn wf(self) -> bool {
        &&& forall|k: int| 0 <= k < self.data@.len() ==> (#[trigger] self.data@[k])@.len() == DATA_LEN
        &&& forall|i: int|
            0 <= i < self.class_entries@.len() ==> {
                let e = #[trigger] self.class_entries@[i];
                &&& e.class_key.0 < self.data@.len()
                &&& e.day.index() < DAY_COUNT
                &&& e.timeslot.index() < TIMESLOT_COUNT
            }
        &&& forall|k: int, c: int|
            0 <= k < self.data@.len() && 0 <= c < DATA_LEN ==> #[trigger] self.data@[k]@[c]
                == entry_slots(self.class_entries@).to_multiset().count((k, c))
    }

    /// What well-formedness gives to other modules: the counts form a full week per
    /// class, sessions lie in the week, and counts are the numbers of sessions.
    pub proof fn lemma_wf(self)
        requires
            self.wf(),
        ensures
            self.counts().len() == self.num_classes(),
            forall|k: int| 0 <= k < self.num_classes() ==> (#[trigger] self.counts()[k]).len() == DATA_LEN,
            forall|i: int|
                0 <= i < self.entries().len() ==> {
                    let e = #[trigger] self.entries()[i];
                    &&& e.class_key.0 < self.num_classes()
                    &&& e.day.index() < DAY_COUNT
                    &&& e.timeslot.index() < TIMESLOT_COUNT
                },
            forall|k: int, c: int|
                0 <= k < self.num_classes() && 0 <= c < DATA_LEN ==> #[trigger] self.counts()[k][c]
                    == entry_slots(self.entries()).to_multiset().count((k, c)),
    {
        assert forall|k: int, c: int|
            0 <= k < self.num_classes() && 0 <= c < DATA_LEN implies #[trigger] self.counts()[k][c]
            == entry_slots(self.entries()).to_multiset().count((k, c)) by {
            assert(self.counts()[k] == self.data@[k]@);
        }
    }

    /// Every count is the number of sessions of the list that are the session of that
    /// class in that cell.
    pub proof fn lemma_count_is_entry_count(self, d: Day, t: Timeslot, k: ClassKey)
        requires
            self.wf(),
            k.0 < self.num_classes(),
            d.index() < DAY_COUNT,
            t.index() < TIMESLOT_COUNT,
        ensures
            self.count(k.0 as int, d.index() as int, t.index() as int) == self.entries().to_multiset().count(
                SingleClassEntry { day: d, timeslot: t, class_key: k },
            ),
    {
        self.lemma_wf();
        lemma_cell_index_bijective(d.index() as int, t.index() as int, d.index() as int, t.index() as int);
        lemma_entry_count_is_slot_count(self.entries(), SingleClassEntry { day: d, timeslot: t, class_key: k });
    }

    /// Two calendars of the same classes with the same counts hold the same sessions,
    /// in some order.
    pub proof fn lemma_same_counts_same_entries(a: ClassCalendar, b: ClassCalendar)
        requires
            a.wf(),
            b.wf(),
            a.num_classes() == b.num_classes(),
            a.counts() == b.counts(),
        ensures
            a.entries().to_multiset() == b.entries().to_multiset(),
    {
        broadcast use vstd::seq_lib::group_to_multiset_ensures;

        a.lemma_wf();
        b.lemma_wf();
        assert forall|e: SingleClassEntry| #[trigger] a.entries().to_multiset().count(e)
            == b.entries().to_multiset().count(e) by {
            if e.day.index() < DAY_COUNT && e.timeslot.index() < TIMESLOT_COUNT && e.class_key.0
                < a.num_classes() {
                a.lemma_count_is_entry_count(e.day, e.timeslot, e.class_key);
                b.lemma_count_is_entry_count(e.day, e.timeslot, e.class_key);
                assert(e == SingleClassEntry { day: e.day, timeslot: e.timeslot, class_key: e.class_key });
            } else {
                if a.entries().to_multiset().count(e) > 0 {
                    assert(a.entries().contains(e));
                    let i = choose|i: int| 0 <= i < a.entries().len() && a.entries()[i] == e;
                    assert(a.entries()[i].class_key.0 < a.num_classes());
                }
                if b.entries().to_multiset().count(e) > 0 {
                    assert(b.entries().contains(e));
                    let i = choose|i: int| 0 <= i < b.entries().len() && b.entries()[i] == e;
                    assert(b.entries()[i].class_key.0 < b.num_classes());
                }
            }
        }
        assert(a.entries().to_multiset() =~= b.entries().to_multiset());
    }

    /// Over the week, the session counts of all classes add up to the number of
    /// sessions in the list.
    pub proof fn lemma_sessions_total(self)
        requires
            self.wf(),
        ensures
            sum_to(
                DAY_COUNT as int,
                |d: int|
                    sum_to(
                        TIMESLOT_COUNT as int,
                        |t: int| sum_to(self.num_classes() as int, |k: int| self.count(k, d, t)),
                    ),
            ) == self.entries().len(),
    {
        let n = self.num_classes() as int;
        let ms = entry_slots(self.class_entries@).to_multiset();
        lemma_slots_in_week(self.class_entries@, n);
        assert forall|d: int| 0 <= d < DAY_COUNT implies #[trigger] slots_in_day(ms, n, d) == sum_to(
            TIMESLOT_COUNT as int,
            |t: int| sum_to(n, |k: int| self.count(k, d, t)),
        ) by {
            assert forall|t: int| 0 <= t < TIMESLOT_COUNT implies #[trigger] slots_in_cell(ms, n, d, t)
                == sum_to(n, |k: int| self.count(k, d, t)) by {
                assert forall|k: int| 0 <= k < n implies #[trigger] ms.count((k, cell_index(d, t)))
                    == self.count(k, d, t) by {
                    lemma_cell_index_bijective(d, t, d, t);
                    assert(self.counts()[k] == self.data@[k]@);
                }
                lemma_sum_ext(
                    n,
                    |k: int| ms.count((k, cell_index(d, t))) as int,
                    |k: int| self.count(k, d, t),
                );
            }
            lemma_sum_ext(
                TIMESLOT_COUNT as int,
                |t: int| slots_in_cell(ms, n, d, t),
                |t: int| sum_to(n, |k: int| self.count(k, d, t)),
            );
        }
        lemma_sum_ext(
            DAY_COUNT as int,
            |d: int| slots_in_day(ms, n, d),
            |d: int|
                sum_to(
                    TIMESLOT_COUNT as int,
                    |t: int| sum_to(n, |k: int| self.count(k, d, t)),
                ),
        );
    }

    /// The empty calendar, without classes.
    pub fn new() -> (r: ClassCalendar)
        ensures
            r.wf(),
            r.num_classes() == 0,
            r.entries().len() == 0,
    {
        ClassCalendar { data: Vec::new(), class_entries: Vec::new() }
    }

    /// The list of sessions.
    pub fn get_entries(&self) -> (r: &Vec<SingleClassEntry>)
        ensures
            r@ == self.entries(),
    {
        &self.class_entries
    }

    /// Number of classes of the calendar.
    pub fn class_count(&self) -> (r: usize)
        ensures
            r == self.num_classes(),
    {
        self.data.len()
    }

    /// The keys of all classes, in order.
    pub fn iter_class_keys(&self) -> (r: Vec<ClassKey>)
        ensures
            r@.len() == self.num_classes(),
            forall|i: int| 0 <= i < r@.len() ==> (#[trigger] r@[i]).0 == i,
    {
        let n = self.data.len();
        let mut r: Vec<ClassKey> = Vec::new();
        let mut i: usize = 0;
        while i < n
            invariant
                n == self.num_classes(),
                i <= n,
                r@.len() == i,
                forall|j: int| 0 <= j < i ==> (#[trigger] r@[j]).0 == j,
            decreases n - i,
        {
            r.push(ClassKey(i));
            i = i + 1;
        }
        r
    }

    /// Number of sessions of class `class_key` in (`day`, `timeslot`).
    pub fn get_count(&self, day: Day, timeslot: Timeslot, class_key: ClassKey) -> (r: u8)
        requires
            self.wf(),
            class_key.0 < self.num_classes(),
        ensures
            r == self.count(class_key.0 as int, day.index() as int, timeslot.index() as int),
    {
        let calendar = &self.data[class_key.0];
        *calendar.get(day, timeslot)
    }

    /// The counts of every class in (`day`, `timeslot`), in order of key.
    pub fn get_timeslot(&self, day: Day, timeslot: Timeslot) -> (r: Vec<u8>)
        requires
            self.wf(),
        ensures
            r@.len() == self.num_classes(),
            forall|k: int| 0 <= k < r@.len() ==> #[trigger] r@[k] == self.count(k, day.index() as int, timeslot.index() as int),
    {
        let n = self.data.len();
        let mut r: Vec<u8> = Vec::new();
        let mut k: usize = 0;
        while k < n
            invariant
                self.wf(),
                n == self.num_classes(),
                k <= n,
                r@.len() == k,
                forall|j: int| 0 <= j < k ==> #[trigger] r@[j] == self.count(j, day.index() as int, timeslot.index() as int),
            decreases n - k,
        {
            r.push(self.get_count(day, timeslot, ClassKey(k)));
            k = k + 1;
        }
        r
    }

    /// The counts of every cell of the week, day by day and, within a day, timeslot
    /// by timeslot: the cell (`d`, `t`) comes at `cell_index(d, t)`.
    pub fn iter_timeslots(&self) -> (r: Vec<Vec<u8>>)
        requires
            self.wf(),
        ensures
            r@.len() == DATA_LEN,
            forall|d: int, t: int|
                0 <= d < DAY_COUNT && 0 <= t < TIMESLOT_COUNT ==> {
                    let cell = #[trigger] r@[cell_index(d, t)];
                    &&& cell@.len() == self.num_classes()
                    &&& forall|k: int| 0 <= k < cell@.len() ==> #[trigger] cell@[k] == self.count(k, d, t)
                },
    {
        let mut r: Vec<Vec<u8>> = Vec::new();
        let mut d: usize = 0;
        while d < DAY_COUNT
            invariant
                self.wf(),
                d <= DAY_COUNT,
                r@.len() == d * TIMESLOT_COUNT,
                forall|d2: int, t2: int|
                    0 <= d2 < d && 0 <= t2 < TIMESLOT_COUNT ==> {
                        let cell = #[trigger] r@[cell_index(d2, t2)];
                        &&& cell@.len() == self.num_classes()
                        &&& forall|k: int| 0 <= k < cell@.len() ==> #[trigger] cell@[k] == self.count(k, d2, t2)
                    },
            decreases DAY_COUNT - d,
        {
            let day = Day::from_index(d);
            let mut t: usize = 0;
            while t < TIMESLOT_COUNT
                invariant
                    self.wf(),
                    d < DAY_COUNT,
                    day.index() == d,
                    t <= TIMESLOT_COUNT,
                    r@.len() == d * TIMESLOT_COUNT + t,
                    forall|d2: int, t2: int|
                        (0 <= d2 < d && 0 <= t2 < TIMESLOT_COUNT) || (d2 == d && 0 <= t2 < t) ==> {
                            let cell = #[trigger] r@[cell_index(d2, t2)];
                            &&& cell@.len() == self.num_classes()
                            &&& forall|k: int| 0 <= k < cell@.len() ==> #[trigger] cell@[k] == self.count(k, d2, t2)
                        },
                decreases TIMESLOT_COUNT - t,
            {
                let timeslot = Timeslot::from_index(t);
                let cell = self.get_timeslot(day, timeslot);
                let ghost before = r@;
                r.push(cell);
                proof {
                    assert forall|d2: int, t2: int|
                        (0 <= d2 < d && 0 <= t2 < TIMESLOT_COUNT) || (d2 == d && 0 <= t2 < t + 1) implies {
                            let cell = #[trigger] r@[cell_index(d2, t2)];
                            &&& cell@.len() == self.num_classes()
                            &&& forall|k: int| 0 <= k < cell@.len() ==> #[trigger] cell@[k] == self.count(k, d2, t2)
                        } by {
                        if d2 == d && t2 == t {
                            assert(cell_index(d2, t2) == before.len());
                        } else {
                            assert(cell_index(d2, t2) < before.len()) by (nonlinear_arith)
                                requires
                                    (0 <= d2 < d && 0 <= t2 < TIMESLOT_COUNT) || (d2 == d && 0 <= t2 < t),
                                    before.len() == d * TIMESLOT_COUNT + t,
                                    cell_index(d2, t2) == d2 * TIMESLOT_COUNT + t2,
                                    TIMESLOT_COUNT == 12,
                            ;
                            assert(r@[cell_index(d2, t2)] == before[cell_index(d2, t2)]);
                        }
                    }
                }
                t = t + 1;
            }
            d = d + 1;
        }
        r
    }

    /// Adds a class without sessions and returns its key.
    pub fn new_class(&mut self) -> (r: ClassKey)
        requires
            old(self).wf(),
        ensures
            final(self).wf(),
            r.0 == old(self).num_classes(),
            final(self).num_classes() == old(self).num_classes() + 1,
            final(self).counts() == old(self).counts().push(Seq::new(DATA_LEN as nat, |c: int| 0u8)),
            final(self).entries() == old(self).entries(),
    {
        let key = ClassKey(self.data.len());
        let empty = WeekCalendar::filled(0u8);
        assert(empty@ =~= Seq::new(DATA_LEN as nat, |c: int| 0u8));
        let ghost old_data = self.data@;
        self.data.push(empty);
        proof {
            assert(self.counts() =~= old(self).counts().push(Seq::new(DATA_LEN as nat, |c: int| 0u8)));
            assert forall|k: int, c: int|
                0 <= k < self.data@.len() && 0 <= c < DATA_LEN implies #[trigger] self.data@[k]@[c]
                == entry_slots(self.class_entries@).to_multiset().count((k, c)) by {
                if k == old_data.len() {
                    broadcast use vstd::seq_lib::group_to_multiset_ensures;

                    assert(!entry_slots(self.class_entries@).contains((k, c))) by {
                        if entry_slots(self.class_entries@).contains((k, c)) {
                            let i = choose|i: int|
                                0 <= i < entry_slots(self.class_entries@).len()
                                    && entry_slots(self.class_entries@)[i] == (k, c);
                            assert(self.class_entries@[i].class_key.0 < old_data.len());
                        }
                    }
                } else {
                    assert(self.data@[k] == old_data[k]);
                }
            }
        }
        key
    }

    /// Adds one session of class `class_key` in (`day`, `timeslot`) and returns the new
    /// count there; fails, changing nothing, when the cell already counts 255 sessions.
    pub fn add_one_class(&mut self, day: Day, timeslot: Timeslot, class_key: ClassKey) -> (r:
        Result<u8, AddOneClassError>)
        requires
            old(self).wf(),
            class_key.0 < old(self).num_classes(),
        ensures
            final(self).wf(),
            ({
                let k = class_key.0 as int;
                let c = cell_index(day.index() as int, timeslot.index() as int);
                let before = old(self).counts()[k][c];
                if before < 255 {
                    &&& r == Ok::<u8, AddOneClassError>((before + 1) as u8)
                    &&& final(self).counts() == set_count(old(self).counts(), k, c, (before + 1) as u8)
                    &&& final(self).entries() == old(self).entries().push(
                        SingleClassEntry { day, timeslot, class_key },
                    )
                } else {
                    &&& r is Err
                    &&& final(self).counts() == old(self).counts()
                    &&& final(self).entries() == old(self).entries()
                }
            }),
            final(self).num_classes() == old(self).num_classes(),
    {
        let current = self.get_count(day, timeslot, class_key);
        if current < 255 {
            let new_count = current + 1;
            let d = day.to_usize();
            let t = timeslot.to_usize();
            let ghost k = class_key.0 as int;
            let ghost c = cell_index(d as int, t as int);
            let ghost old_data = self.data@;
            let ghost old_entries = self.class_entries@;
            let entry = SingleClassEntry { day, timeslot, class_key };
            self.data[class_key.0].set(day, timeslot, new_count);
            self.class_entries.push(entry);
            proof {
                broadcast use vstd::seq_lib::group_to_multiset_ensures;

                assert(entry_slots(self.class_entries@) =~= entry_slots(old_entries).push((k, c)));
                assert(self.counts() =~= set_count(old(self).counts(), k, c, new_count));
                assert forall|k2: int, c2: int|
                    0 <= k2 < self.data@.len() && 0 <= c2 < DATA_LEN implies #[trigger] self.data@[k2]@[c2] == entry_slots(
                    self.class_entries@,
                ).to_multiset().count((k2, c2)) by {
                    if k2 != k {
                        assert(self.data@[k2] == old_data[k2]);
                    }
                }
                assert forall|i: int| 0 <= i < self.class_entries@.len() implies {
                    let e = #[trigger] self.class_entries@[i];
                    &&& e.class_key.0 < self.data@.len()
                    &&& e.day.index() < DAY_COUNT
                    &&& e.timeslot.index() < TIMESLOT_COUNT
                } by {
                    if i < old_entries.len() {
                        assert(self.class_entries@[i] == old_entries[i]);
                    }
                }
                assert forall|k2: int| 0 <= k2 < self.data@.len() implies (
                #[trigger] self.data@[k2])@.len() == DATA_LEN by {
                    if k2 != k {
                        assert(self.data@[k2] == old_data[k2]);
                    }
                }
            }
            Ok(new_count)
        } else {
            Err(AddOneClassError::DestinationFull)
        }
    }

    /// Removes the session at position `idx` of the list (the last session takes its
    /// place) and lowers the count of its cell.
    fn remove_entry_at(&mut self, idx: usize) -> (r: u8)
        requires
            old(self).wf(),
            idx < old(self).entries().len(),
        ensures
            final(self).wf(),
            ({
                let e = old(self).entries()[idx as int];
                let (k, c) = entry_slot(e);
                let before = old(self).counts()[k][c];
                &&& before > 0
                &&& r == before - 1
                &&& final(self).counts() == set_count(old(self).counts(), k, c, (before - 1) as u8)
                &&& final(self).entries() == old(self).entries().update(
                    idx as int,
                    old(self).entries().last(),
                ).drop_last()
            }),
            final(self).num_classes() == old(self).num_classes(),
    {
        let ghost old_entries = self.class_entries@;
        let ghost old_data = self.data@;
        let e = self.class_entries[idx];
        let ghost k = e.class_key.0 as int;
        let ghost c = cell_index(e.day.index() as int, e.timeslot.index() as int);
        proof {
            broadcast use vstd::seq_lib::group_to_multiset_ensures;

            assert(entry_slots(old_entries)[idx as int] == (k, c));
            assert(entry_slots(old_entries).contains((k, c)));
        }
        let current = self.get_count(e.day, e.timeslot, e.class_key);
        let new_count = current - 1;
        self.class_entries.swap_remove(idx);
        self.data[e.class_key.0].set(e.day, e.timeslot, new_count);
        proof {
            lemma_swap_remove_multiset(entry_slots(old_entries), idx as int);
            assert(entry_slots(self.class_entries@) =~= entry_slots(old_entries).update(
                idx as int,
                entry_slots(old_entries).last(),
            ).drop_last());
            assert(self.counts() =~= set_count(old(self).counts(), k, c, new_count));
            assert forall|k2: int, c2: int|
                0 <= k2 < self.data@.len() && 0 <= c2 < DATA_LEN implies #[trigger] self.data@[k2]@[c2] == entry_slots(
                self.class_entries@,
            ).to_multiset().count((k2, c2)) by {
                if k2 != k {
                    assert(self.data@[k2] == old_data[k2]);
                }
            }
            assert forall|i: int| 0 <= i < self.class_entries@.len() implies {
                let e2 = #[trigger] self.class_entries@[i];
                &&& e2.class_key.0 < self.data@.len()
                &&& e2.day.index() < DAY_COUNT
                &&& e2.timeslot.index() < TIMESLOT_COUNT
            } by {
                if i == idx {
                    assert(self.class_entries@[i] == old_entries[old_entries.len() - 1]);
                } else {
                    assert(self.class_entries@[i] == old_entries[i]);
                }
            }
            assert forall|k2: int| 0 <= k2 < self.data@.len() implies (
            #[trigger] self.data@[k2])@.len() == DATA_LEN by {
                if k2 != k {
                    assert(self.data@[k2] == old_data[k2]);
                }
            }
        }
        new_count
    }

    /// Removes one session of class `class_key` from (`day`, `timeslot`) and returns the
    /// new count there; fails, changing nothing, when the cell holds no such session.
    /// Takes time linear in the number of sessions.
    pub fn remove_one_class(&mut self, day: Day, timeslot: Timeslot, class_key: ClassKey) -> (r:
        Result<u8, RemoveOneClassError>)
        requires
            old(self).wf(),
            class_key.0 < old(self).num_classes(),
        ensures
            final(self).wf(),
            ({
                let k = class_key.0 as int;
                let c = cell_index(day.index() as int, timeslot.index() as int);
                let before = old(self).counts()[k][c];
                if before > 0 {
                    &&& r == Ok::<u8, RemoveOneClassError>((before - 1) as u8)
                    &&& final(self).counts() == set_count(old(self).counts(), k, c, (before - 1) as u8)
                    &&& final(self).entries().len() + 1 == old(self).entries().len()
                } else {
                    &&& r is Err
                    &&& final(self).counts() == old(self).counts()
                    &&& final(self).entries() == old(self).entries()
                }
            }),
            final(self).num_classes() == old(self).num_classes(),
    {
        let d = day.to_usize();
        let t = timeslot.to_usize();
        let n = self.class_entries.len();
        let mut i: usize = 0;
        while i < n
            invariant
                self.wf(),
                *self == *old(self),
                n == self.class_entries@.len(),
                i <= n,
                d == day.index(),
                t == timeslot.index(),
                d < DAY_COUNT,
                t < TIMESLOT_COUNT,
                forall|j: int|
                    0 <= j < i ==> entry_slot(#[trigger] self.class_entries@[j]) != (
                        class_key.0 as int,
                        cell_index(d as int, t as int),
                    ),
            decreases n - i,
        {
            let e = self.class_entries[i];
            if e.class_key.0 == class_key.0 && e.day.to_usize() == d && e.timeslot.to_usize() == t {
                let r = self.remove_entry_at(i);
                return Ok(r);
            }
            proof {
                let e = self.class_entries@[i as int];
                assert(e.class_key.0 < self.data@.len());
                assert(e.day.index() < DAY_COUNT);
                assert(e.timeslot.index() < TIMESLOT_COUNT);
                crate::week_calendar::lemma_cell_index_bijective(
                    e.day.index() as int,
                    e.timeslot.index() as int,
                    d as int,
                    t as int,
                );
            }
            i = i + 1;
        }
        proof {
            broadcast use vstd::seq_lib::group_to_multiset_ensures;

            let k = class_key.0 as int;
            let c = cell_index(d as int, t as int);
            assert(!entry_slots(self.class_entries@).contains((k, c))) by {
                if entry_slots(self.class_entries@).contains((k, c)) {
                    let j = choose|j: int|
                        0 <= j < entry_slots(self.class_entries@).len() && entry_slots(
                            self.class_entries@,
                        )[j] == (k, c);
                    assert(entry_slot(self.class_entries@[j]) == (k, c));
                }
            }
            assert(self.counts()[k] == self.data@[k]@);
        }
        Err(RemoveOneClassError::SourceEmpty)
    }

    /// Removes the first listed session of class `class_key` and returns the new count
    /// of its cell; fails, changing nothing, when the class has no session.
    /// Takes time linear in the number of sessions.
    pub fn remove_one_class_anywhere(&mut self, class_key: ClassKey) -> (r: Result<
        u8,
        RemoveOneClassAnywhereError,
    >)
        requires
            old(self).wf(),
            class_key.0 < old(self).num_classes(),
        ensures
            final(self).wf(),
            final(self).num_classes() == old(self).num_classes(),
            (exists|i: int|
                0 <= i < old(self).entries().len() && (#[trigger] old(self).entries()[i]).class_key
                    == class_key) ==> {
                let i = choose|i: int|
                    0 <= i < old(self).entries().len() && (#[trigger] old(self).entries()[i]).class_key
                        == class_key && forall|j: int|
                        0 <= j < i ==> (#[trigger] old(self).entries()[j]).class_key != class_key;
                let (k, c) = entry_slot(old(self).entries()[i]);
                let before = old(self).counts()[k][c];
                &&& 0 <= i < old(self).entries().len()
                &&& old(self).entries()[i].class_key == class_key
                &&& before > 0
                &&& r == Ok::<u8, RemoveOneClassAnywhereError>((before - 1) as u8)
                &&& final(self).counts() == set_count(old(self).counts(), k, c, (before - 1) as u8)
                &&& final(self).entries() == old(self).entries().update(i, old(self).entries().last()).drop_last()
            },
            !(exists|i: int|
                0 <= i < old(self).entries().len() && (#[trigger] old(self).entries()[i]).class_key
                    == class_key) ==> {
                &&& r is Err
                &&& final(self).counts() == old(self).counts()
                &&& final(self).entries() == old(self).entries()
            },
    {
        let n = self.class_entries.len();
        let mut i: usize = 0;
        while i < n
            invariant
                self.wf(),
                *self == *old(self),
                n == self.class_entries@.len(),
                i <= n,
                forall|j: int| 0 <= j < i ==> (#[trigger] self.class_entries@[j]).class_key != class_key,
            decreases n - i,
        {
            let e = self.class_entries[i];
            if e.class_key.0 == class_key.0 {
                let ghost first = choose|j: int|
                    0 <= j < old(self).entries().len() && (#[trigger] old(self).entries()[j]).class_key
                        == class_key && forall|j2: int|
                        0 <= j2 < j ==> (#[trigger] old(self).entries()[j2]).class_key != class_key;
                proof {
                    assert(old(self).entries()[i as int].class_key == class_key);
                    assert(forall|j2: int|
                        0 <= j2 < i ==> (#[trigger] old(self).entries()[j2]).class_key != class_key);
                    if first < i {
                        assert(old(self).entries()[first].class_key != class_key);
                    } else if first > i {
                        assert(old(self).entries()[i as int].class_key != class_key);
                    }
                }
                let r = self.remove_entry_at(i);
                return Ok(r);
            }
            i = i + 1;
        }
        Err(RemoveOneClassAnywhereError::NoClasses)
    }

    /// Moves one session of class `class_key` from the source to the target cell.
    /// The source must hold a session of the class, and the target must have room for
    /// one more once it has left.
    pub fn move_one_class(
        &mut self,
        source_day: Day,
        source_timeslot: Timeslot,
        target_day: Day,
        target_timeslot: Timeslot,
        class_key: ClassKey,
    )
        requires
            old(self).wf(),
            class_key.0 < old(self).num_classes(),
            old(self).count(class_key.0 as int, source_day.index() as int, source_timeslot.index() as int) > 0,
            old(self).count(class_key.0 as int, target_day.index() as int, target_timeslot.index() as int) < 255
                || (source_day.index() == target_day.index() && source_timeslot.index() == target_timeslot.index()),
        ensures
            final(self).wf(),
            final(self).num_classes() == old(self).num_classes(),
            final(self).counts() == move_count(
                old(self).counts(),
                class_key.0 as int,
                cell_index(source_day.index() as int, source_timeslot.index() as int),
                cell_index(target_day.index() as int, target_timeslot.index() as int),
            ),
            final(self).entries().len() == old(self).entries().len(),
    {
        let sd = source_day.to_usize();
        let st = source_timeslot.to_usize();
        let td = target_day.to_usize();
        let tt = target_timeslot.to_usize();
        proof {
            crate::week_calendar::lemma_cell_index_bijective(sd as int, st as int, td as int, tt as int);
        }
        let r1 = self.remove_one_class(source_day, source_timeslot, class_key);
        let r2 = self.add_one_class(target_day, target_timeslot, class_key);
    }

    /// Moves the session at position `entry_index` of the list to (`dst_day`,
    /// `dst_timeslot`) and returns the move; fails, changing nothing, when that cell
    /// already counts 255 sessions of the session's class.
    pub fn move_entry_to(&mut self, entry_index: usize, dst_day: Day, dst_timeslot: Timeslot) -> (r: Result<
        ClassEntryDelta,
        MoveOneClassRandomError,
    >)
        requires
            old(self).wf(),
            entry_index < old(self).entries().len(),
        ensures
            final(self).wf(),
            final(self).num_classes() == old(self).num_classes(),
            final(self).entries().len() == old(self).entries().len(),
            ({
                let e = old(self).entries()[entry_index as int];
                let k = e.class_key.0 as int;
                let src = cell_index(e.day.index() as int, e.timeslot.index() as int);
                let dst = cell_index(dst_day.index() as int, dst_timeslot.index() as int);
                &&& 0 <= k < old(self).num_classes()
                &&& r is Ok <==> old(self).counts()[k][dst] < 255
                &&& r is Err ==> (r matches Err(MoveOneClassRandomError::RandomChosenDestinationFull))
                    && final(self).counts() == old(self).counts() && final(self).entries() == old(self).entries()
                &&& r matches Ok(delta) ==> {
                    &&& delta == ClassEntryDelta {
                        class_key: e.class_key,
                        src_day: e.day,
                        src_timeslot: e.timeslot,
                        dst_day,
                        dst_timeslot,
                    }
                    &&& old(self).counts()[k][src] > 0
                    &&& final(self).counts() == move_count(old(self).counts(), k, src, dst)
                    &&& final(self).entries() == old(self).entries().update(
                        entry_index as int,
                        SingleClassEntry { day: dst_day, timeslot: dst_timeslot, class_key: e.class_key },
                    )
                }
            }),
    {
        let entry = self.class_entries[entry_index];
        let _ = dst_day.to_usize();
        let _ = dst_timeslot.to_usize();
        proof {
            assert(self.class_entries@[entry_index as int].class_key.0 < self.data@.len());
        }
        let count = self.get_count(dst_day, dst_timeslot, entry.class_key);
        if count == 255 {
            return Err(MoveOneClassRandomError::RandomChosenDestinationFull);
        }
        let delta = ClassEntryDelta {
            class_key: entry.class_key,
            src_day: entry.day,
            src_timeslot: entry.timeslot,
            dst_day,
            dst_timeslot,
        };
        let ghost old_entries = self.class_entries@;
        let ghost old_data = self.data@;
        let ghost k = delta.class_key.0 as int;
        let ghost src = cell_index(delta.src_day.index() as int, delta.src_timeslot.index() as int);
        let ghost dst = cell_index(delta.dst_day.index() as int, delta.dst_timeslot.index() as int);
        let ghost old_entry = old_entries[entry_index as int];
        proof {
            broadcast use vstd::seq_lib::group_to_multiset_ensures;

            assert(old_entry.class_key.0 < old_data.len());
            assert(old_entry.day.index() < DAY_COUNT);
            assert(old_entry.timeslot.index() < TIMESLOT_COUNT);
            assert(entry_slots(old_entries)[entry_index as int] == (k, src));
            assert(entry_slots(old_entries).contains((k, src)));
            assert(entry_slots(old_entries).to_multiset().count((k, src)) > 0);
            assert(0 <= src < DATA_LEN);
            assert(0 <= dst < DATA_LEN);
            assert(old(self).counts()[k] == old_data[k]@);
            assert(old_data[k]@[src] > 0);
        }
        let new_entry = SingleClassEntry {
            day: delta.dst_day,
            timeslot: delta.dst_timeslot,
            class_key: delta.class_key,
        };
        self.class_entries.set(entry_index, new_entry);
        let src_count = self.get_count_unchecked(delta.src_day, delta.src_timeslot, delta.class_key);
        assert(src_count == old_data[k]@[src]);
        self.data[delta.class_key.0].set(delta.src_day, delta.src_timeslot, src_count - 1);
        let ghost mid_data = self.data@;
        let dst_count = self.get_count_unchecked(delta.dst_day, delta.dst_timeslot, delta.class_key);
        proof {
            assert(mid_data[k]@ == old_data[k]@.update(src, (src_count - 1) as u8));
            if src == dst {
                assert(dst_count == src_count - 1);
            } else {
                assert(dst_count == old_data[k]@[dst]);
            }
        }
        self.data[delta.class_key.0].set(delta.dst_day, delta.dst_timeslot, dst_count + 1);
        proof {
            broadcast use vstd::seq_lib::group_to_multiset_ensures;

            lemma_update_multiset(entry_slots(old_entries), entry_index as int, (k, dst));
            assert(entry_slots(self.class_entries@) =~= entry_slots(old_entries).update(
                entry_index as int,
                (k, dst),
            ));
            assert(self.data@[k]@ == old_data[k]@.update(src, (src_count - 1) as u8).update(
                dst,
                (dst_count + 1) as u8,
            ));
            assert(self.counts() =~= move_count(old(self).counts(), k, src, dst));
            let ms0 = entry_slots(old_entries).to_multiset();
            let ms1 = entry_slots(self.class_entries@).to_multiset();
            assert(ms1 =~= ms0.remove((k, src)).insert((k, dst)));
            assert forall|k2: int, c2: int|
                0 <= k2 < self.data@.len() && 0 <= c2 < DATA_LEN implies #[trigger] self.data@[k2]@[c2]
                == ms1.count((k2, c2)) by {
                if k2 != k {
                    assert(self.data@[k2] == old_data[k2]);
                    assert(old_data[k2]@[c2] == ms0.count((k2, c2)));
                } else {
                    assert(old_data[k]@[c2] == ms0.count((k, c2)));
                }
            }
            assert forall|i: int| 0 <= i < self.class_entries@.len() implies {
                let e2 = #[trigger] self.class_entries@[i];
                &&& e2.class_key.0 < self.data@.len()
                &&& e2.day.index() < DAY_COUNT
                &&& e2.timeslot.index() < TIMESLOT_COUNT
            } by {
                if i != entry_index {
                    assert(self.class_entries@[i] == old_entries[i]);
                }
            }
            assert forall|k2: int| 0 <= k2 < self.data@.len() implies (
            #[trigger] self.data@[k2])@.len() == DATA_LEN by {
                if k2 != k {
                    assert(self.data@[k2] == old_data[k2]);
                }
            }
            assert(old(self).entries()[entry_index as int] == SingleClassEntry {
                day: delta.src_day,
                timeslot: delta.src_timeslot,
                class_key: delta.class_key,
            });
        }
        Ok(delta)
    }

    /// Moves a random session to a random cell and returns the move; fails, changing
    /// nothing, when there is no session or the chosen destination is full. The session
    /// is drawn among all the sessions of the list, and the destination among all the
    /// cells of the week; the move itself is `move_entry_to`.
    pub fn move_one_class_random(&mut self, rng: &mut ChaCha8Rng) -> (r: Result<
        ClassEntryDelta,
        MoveOneClassRandomError,
    >)
        requires
            old(self).wf(),
        ensures
            final(self).wf(),
            final(self).num_classes() == old(self).num_classes(),
            final(self).entries().len() == old(self).entries().len(),
            r matches Err(MoveOneClassRandomError::NoClassesToMove) <==> old(self).entries().len() == 0,
            old(self).entries().len() > 0 && (forall|k: int, c: int|
                0 <= k < old(self).num_classes() && 0 <= c < DATA_LEN ==> #[trigger] old(self).counts()[k][c] < 255)
                ==> r is Ok,
            r matches Err(MoveOneClassRandomError::RandomChosenDestinationFull) ==> exists|i: int, c: int|
                0 <= i < old(self).entries().len() && 0 <= c < DATA_LEN && #[trigger] old(self).counts()[
                    old(self).entries()[i].class_key.0 as int][c] == 255,
            r is Err ==> final(self).counts() == old(self).counts() && final(self).entries()
                == old(self).entries(),
            r matches Ok(delta) ==> {
                let k = delta.class_key.0 as int;
                let src = cell_index(delta.src_day.index() as int, delta.src_timeslot.index() as int);
                let dst = cell_index(delta.dst_day.index() as int, delta.dst_timeslot.index() as int);
                &&& 0 <= k < old(self).num_classes()
                &&& old(self).counts()[k][src] > 0
                &&& old(self).counts()[k][dst] < 255
                &&& final(self).counts() == move_count(old(self).counts(), k, src, dst)
                &&& exists|i: int|
                    0 <= i < old(self).entries().len() && #[trigger] old(self).entries()[i]
                        == SingleClassEntry {
                        day: delta.src_day,
                        timeslot: delta.src_timeslot,
                        class_key: delta.class_key,
                    } && final(self).entries() == old(self).entries().update(
                        i,
                        SingleClassEntry {
                            day: delta.dst_day,
                            timeslot: delta.dst_timeslot,
                            class_key: delta.class_key,
                        },
                    )
            },
    {
        if self.class_entries.len() == 0 {
            return Err(MoveOneClassRandomError::NoClassesToMove);
        }
        let entry_index = random_below(rng, self.class_entries.len());
        let dst_day = Day::new_random(rng);
        let dst_timeslot = Timeslot::new_random(rng);
        let ghost e = self.entries()[entry_index as int];
        let ghost dst = cell_index(dst_day.index() as int, dst_timeslot.index() as int);
        proof {
            lemma_cell_index_bijective(
                dst_day.index() as int,
                dst_timeslot.index() as int,
                dst_day.index() as int,
                dst_timeslot.index() as int,
            );
        }
        let r = self.move_entry_to(entry_index, dst_day, dst_timeslot);
        proof {
            if r is Err {
                assert(old(self).counts()[e.class_key.0 as int][dst] == 255);
            }
            if r is Ok {
                assert(old(self).entries()[entry_index as int] == e);
            }
        }
        r
    }

    /// The count of class `class_key` in a cell, for a class of the calendar whose
    /// counts hold a full week.
    fn get_count_unchecked(&self, day: Day, timeslot: Timeslot, class_key: ClassKey) -> (r: u8)
        requires
            class_key.0 < self.data@.len(),
        ensures
            r == self.data@[class_key.0 as int]@[cell_index(day.index() as int, timeslot.index() as int)],
    {
        *self.data[class_key.0].get(day, timeslot)
    }

    /// A copy of the calendar.
    pub fn copy(&self) -> (r: ClassCalendar)
        requires
            self.wf(),
        ensures
            r.wf(),
            r.counts() == self.counts(),
            r.entries() == self.entries(),
            r.num_classes() == self.num_classes(),
    {
        let n = self.data.len();
        let mut data: Vec<WeekCalendar<u8>> = Vec::new();
        let mut i: usize = 0;
        while i < n
            invariant
                n == self.data@.len(),
                i <= n,
                data@.len() == i,
                forall|j: int| 0 <= j < i ==> (#[trigger] data@[j])@ == self.data@[j]@,
            decreases n - i,
        {
            data.push(self.data[i].copy());
            i = i + 1;
        }
        let m = self.class_entries.len();
        let mut entries: Vec<SingleClassEntry> = Vec::new();
        let mut j: usize = 0;
        while j < m
            invariant
                m == self.class_entries@.len(),
                j <= m,
                entries@ == self.class_entries@.subrange(0, j as int),
            decreases m - j,
        {
            entries.push(self.class_entries[j]);
            j = j + 1;
        }
        let r = ClassCalendar { data, class_entries: entries };
        proof {
            assert(r.class_entries@ =~= self.class_entries@);
            assert(r.counts() =~= self.counts());
        }
        r
    }
}

impl Default for ClassCalendar {
    fn default() -> (r: ClassCalendar)
        ensures
            r.wf(),
            r.num_classes() == 0,
            r.entries().len() == 0,
    {
        ClassCalendar::new()
    }
}

} // verus!
