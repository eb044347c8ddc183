//! A school week: five days of twelve one-hour timeslots (08:00 to 19:00),
//! and a calendar that stores one value per (day, timeslot) cell.
use vstd::prelude::*;
use rand_chacha::ChaCha8Rng;

use crate::random::random_below;

verus! {

/// Number of one-hour timeslots in a school day.
pub const TIMESLOT_COUNT: usize = 12;

/// Number of school days in a week.
pub const DAY_COUNT: usize = 5;

/// Number of cells of a week calendar.
pub const DATA_LEN: usize = 60;

pub const TIMESLOT_08_00: usize = 0;
pub const TIMESLOT_09_00: usize = 1;
pub const TIMESLOT_10_00: usize = 2;
pub const TIMESLOT_11_00: usize = 3;
pub const TIMESLOT_12_00: usize = 4;
pub const TIMESLOT_13_00: usize = 5;
pub const TIMESLOT_14_00: usize = 6;
pub const TIMESLOT_15_00: usize = 7;
pub const TIMESLOT_16_00: usize = 8;
pub const TIMESLOT_17_00: usize = 9;
pub const TIMESLOT_18_00: usize = 10;
pub const TIMESLOT_19_00: usize = 11;

pub const DAY_MONDAY: usize = 0;
pub const DAY_TUESDAY: usize = 1;
pub const DAY_WEDNESDAY: usize = 2;
pub const DAY_THURSDAY: usize = 3;
pub const DAY_FRIDAY: usize = 4;

/// A half-open range of `usize` values.
#[derive(Clone, Copy, Debug)]
pub struct UsizeRange {
    pub start: usize,
    pub end: usize,
}

/// `true` when `item` lies in the half-open `range`.
pub fn range_contains(range: UsizeRange, item: usize) -> (r: bool)
    ensures
        r == (range.start <= item && item < range.end),
{
    range.start <= item && item < range.end
}

/// One of the twelve timeslots of a day; the value is always below `TIMESLOT_COUNT`.
#[derive(Clone, Copy, Debug, PartialEq, Eq, Hash, PartialOrd, Ord)]
pub struct Timeslot(usize);

/// One of the five days of the week; the value is always below `DAY_COUNT`.
#[derive(Clone, Copy, Debug, PartialEq, Eq, Hash, PartialOrd, Ord)]
pub struct Day(usize);

impl Timeslot {
    #[verifier::type_invariant]
    spec fn in_range(self) -> bool {
        self.0 < TIMESLOT_COUNT
    }

    /// The position of the timeslot in the day (0 is 08:00).
    pub closed spec fn index(self) -> nat {
        self.0 as nat
    }

    /// The position of the timeslot in the day; always below `TIMESLOT_COUNT`.
    pub fn to_usize(self) -> (r: usize)
        ensures
            r == self.index(),
            r < TIMESLOT_COUNT,
        no_unwind
    {
        proof {
            use_type_invariant(self);
        }
        self.0
    }

    /// The timeslot at position `value`, when there is one.
    pub fn from_usize(value: usize) -> (r: Option<Timeslot>)
        ensures
            r is Some <==> value < TIMESLOT_COUNT,
            r matches Some(t) ==> t.index() == value,
    {
        if range_contains(UsizeRange { start: 0, end: TIMESLOT_COUNT }, value) {
            Some(Timeslot(value))
        } else {
            None
        }
    }

    /// A timeslot drawn at random.
    pub fn new_random(rng: &mut ChaCha8Rng) -> (r: Timeslot)
        ensures
            r.index() < TIMESLOT_COUNT,
    {
        Timeslot(random_below(rng, TIMESLOT_COUNT))
    }

    /// Every timeslot of a day, in order.
    pub fn all() -> (r: Vec<Timeslot>)
        ensures
            r@.len() == TIMESLOT_COUNT,
            forall|i: int| 0 <= i < TIMESLOT_COUNT ==> #[trigger] r@[i].index() == i,
    {
        let mut r: Vec<Timeslot> = Vec::new();
        let mut i: usize = 0;
        while i < TIMESLOT_COUNT
            invariant
                i <= TIMESLOT_COUNT,
                r@.len() == i,
                forall|j: int| 0 <= j < i ==> #[trigger] r@[j].index() == j,
            decreases TIMESLOT_COUNT - i,
        {
            r.push(Timeslot(i));
            i = i + 1;
        }
        r
    }

    /// The timeslot at position `value`; `value` must be below `TIMESLOT_COUNT`.
    pub fn from_index(value: usize) -> (r: Timeslot)
        requires
            value < TIMESLOT_COUNT,
        ensures
            r.index() == value,
    {
        Timeslot(value)
    }
}

impl Timeslot {
    /// Timeslots are equal exactly when their positions are.
    pub proof fn lemma_index_injective(t1: Timeslot, t2: Timeslot)
        ensures
            t1.index() == t2.index() <==> t1 == t2,
    {
    }
}

impl Day {
    /// Days are equal exactly when their positions are.
    pub proof fn lemma_index_injective(d1: Day, d2: Day)
        ensures
            d1.index() == d2.index() <==> d1 == d2,
    {
    }

    #[verifier::type_invariant]
    spec fn in_range(self) -> bool {
        self.0 < DAY_COUNT
    }

    /// The position of the day in the week (0 is Monday).
    pub closed spec fn index(self) -> nat {
        self.0 as nat
    }

    /// The position of the day in the week; always below `DAY_COUNT`.
    pub fn to_usize(self) -> (r: usize)
        ensures
            r == self.index(),
            r < DAY_COUNT,
        no_unwind
    {
        proof {
            use_type_invariant(self);
        }
        self.0
    }

    /// The day at position `value`, when there is one.
    pub fn from_usize(value: usize) -> (r: Option<Day>)
        ensures
            r is Some <==> value < DAY_COUNT,
            r matches Some(d) ==> d.index() == value,
    {
        if range_contains(UsizeRange { start: 0, end: DAY_COUNT }, value) {
            Some(Day(value))
        } else {
            None
        }
    }

    /// A day drawn at random.
    pub fn new_random(rng: &mut ChaCha8Rng) -> (r: Day)
        ensures
            r.index() < DAY_COUNT,
    {
        Day(random_below(rng, DAY_COUNT))
    }

    /// Every day of the week, in order.
    pub fn all() -> (r: Vec<Day>)
        ensures
            r@.len() == DAY_COUNT,
            forall|i: int| 0 <= i < DAY_COUNT ==> #[trigger] r@[i].index() == i,
    {
        let mut r: Vec<Day> = Vec::new();
        let mut i: usize = 0;
        while i < DAY_COUNT
            invariant
                i <= DAY_COUNT,
                r@.len() == i,
                forall|j: int| 0 <= j < i ==> #[trigger] r@[j].index() == j,
            decreases DAY_COUNT - i,
        {
            r.push(Day(i));
            i = i + 1;
        }
        r
    }

    /// The day at position `value`; `value` must be below `DAY_COUNT`.
    pub fn from_index(value: usize) -> (r: Day)
        requires
            value < DAY_COUNT,
        ensures
            r.index() == value,
    {
        Day(value)
    }
}

/// The timeslot inside an `Option` that must hold one.
pub fn const_unwrap_timeslot(opt: Option<Timeslot>) -> (r: Timeslot)
    requires
        opt is Some,
    ensures
        opt == Some(r),
{
    match opt {
        Some(t) => t,
        None => { proof { assert(false); } Timeslot(0) },
    }
}

/// The day inside an `Option` that must hold one.
pub fn const_unwrap_day(opt: Option<Day>) -> (r: Day)
    requires
        opt is Some,
    ensures
        opt == Some(r),
{
    match opt {
        Some(d) => d,
        None => { proof { assert(false); } Day(0) },
    }
}

/// The cell of (`day`, `timeslot`) in a week calendar's storage: days are rows of
/// `TIMESLOT_COUNT` cells.
pub open spec fn cell_index(day: int, timeslot: int) -> int {
    day * TIMESLOT_COUNT + timeslot
}

/// `cell_index` maps the week one-to-one onto `0..DATA_LEN`.
pub proof fn lemma_cell_index_bijective(d1: int, t1: int, d2: int, t2: int)
    requires
        0 <= d1 < DAY_COUNT,
        0 <= t1 < TIMESLOT_COUNT,
        0 <= d2 < DAY_COUNT,
        0 <= t2 < TIMESLOT_COUNT,
    ensures
        0 <= cell_index(d1, t1) < DATA_LEN,
        cell_index(d1, t1) == cell_index(d2, t2) <==> (d1 == d2 && t1 == t2),
{
}

/// The hour at which a timeslot of the week calendar starts: 08:00 for the first.
pub fn timeslot_to_hour(timeslot: Timeslot) -> (r: u32)
    ensures
        r == timeslot.index() + 8,
{
    (timeslot.to_usize() as u32) + 8
}

/// The storage position of (`day`, `timeslot`).
pub fn get_index(day: Day, timeslot: Timeslot) -> (r: usize)
    ensures
        r == cell_index(day.index() as int, timeslot.index() as int),
        r < DATA_LEN,
    no_unwind
{
    let d = day.to_usize();
    let t = timeslot.to_usize();
    d * TIMESLOT_COUNT + t
}

/// Error of building a week calendar from data of the wrong length.
#[derive(Debug)]
pub struct IncorrectDataLenError {}

/// One value per (day, timeslot) of the week.
#[derive(Debug)]
pub struct WeekCalendar<T> {
    data: Vec<T>,
}

impl<T> View for WeekCalendar<T> {
    type V = Seq<T>;

    closed spec fn view(&self) -> Seq<T> {
        self.data@
    }
}

impl<T> WeekCalendar<T> {
    #[verifier::type_invariant]
    spec fn full_week(self) -> bool {
        self.data@.len() == DATA_LEN
    }

    /// The value stored for (`day`, `timeslot`), by their positions.
    pub open spec fn at(self, day: int, timeslot: int) -> T {
        self@[cell_index(day, timeslot)]
    }

    /// The calendar holding `value` in every cell.
    pub fn filled(value: T) -> (r: WeekCalendar<T>)
        where T: Copy
        ensures
            r@.len() == DATA_LEN,
            forall|i: int| 0 <= i < DATA_LEN ==> #[trigger] r@[i] == value,
    {
        let mut data: Vec<T> = Vec::new();
        let mut i: usize = 0;
        while i < DATA_LEN
            invariant
                i <= DATA_LEN,
                data@.len() == i,
                forall|j: int| 0 <= j < i ==> #[trigger] data@[j] == value,
            decreases DATA_LEN - i,
        {
            data.push(value);
            i = i + 1;
        }
        WeekCalendar { data }
    }

    /// The value stored for (`day`, `timeslot`).
    pub fn get(&self, day: Day, timeslot: Timeslot) -> (r: &T)
        ensures
            *r == self.at(day.index() as int, timeslot.index() as int),
    {
        proof {
            use_type_invariant(self);
        }
        let i = get_index(day, timeslot);
        &self.data[i]
    }

    /// The value stored for (`day`, `timeslot`), to be edited.
    pub fn get_mut(&mut self, day: Day, timeslot: Timeslot) -> (r: &mut T)
        ensures
            *r == old(self).at(day.index() as int, timeslot.index() as int),
            final(self)@ == old(self)@.update(
                cell_index(day.index() as int, timeslot.index() as int),
                *final(r),
            ),
    {
        proof {
            use_type_invariant(&*self);
        }
        let i = get_index(day, timeslot);
        &mut self.data[i]
    }

    /// Replaces the value stored for (`day`, `timeslot`).
    pub fn set(&mut self, day: Day, timeslot: Timeslot, value: T)
        ensures
            final(self)@ == old(self)@.update(
                cell_index(day.index() as int, timeslot.index() as int),
                value,
            ),
        no_unwind
    {
        proof {
            use_type_invariant(&*self);
        }
        let i = get_index(day, timeslot);
        self.data[i] = value;
    }

    /// A copy of the calendar.
    pub fn copy(&self) -> (r: WeekCalendar<T>)
        where T: Copy
        ensures
            r@ == self@,
    {
        proof {
            use_type_invariant(self);
        }
        let mut data: Vec<T> = Vec::new();
        let mut i: usize = 0;
        while i < DATA_LEN
            invariant
                i <= DATA_LEN,
                self@.len() == DATA_LEN,
                data@ == self@.subrange(0, i as int),
            decreases DATA_LEN - i,
        {
            data.push(self.data[i]);
            i = i + 1;
        }
        WeekCalendar { data }
    }

    /// Builds a calendar from its storage, which must hold exactly `DATA_LEN` values.
    pub fn try_from_vec(data: Vec<T>) -> (r: Result<WeekCalendar<T>, IncorrectDataLenError>)
        ensures
            r is Ok <==> data@.len() == DATA_LEN,
            r matches Ok(c) ==> c@ == data@,
    {
        if data.len() == DATA_LEN {
            Ok(WeekCalendar { data })
        } else {
            Err(IncorrectDataLenError {})
        }
    }
}

impl<T: Copy> Clone for WeekCalendar<T> {
    fn clone(&self) -> (r: Self)
        ensures
            r@ == self@,
    {
        self.copy()
    }
}

} // verus!
