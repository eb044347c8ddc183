//! The events of a schedule for a calendar file: one event per run of consecutive
//! sessions of a class on a day, in the first week of the semester, with its start and
//! end as Unix times of the school's local time.
use chrono::TimeZone;
use vstd::prelude::*;

use crate::class_calendar::SingleClassEntry;
use crate::constraints::Class;
use crate::school_schedule::{extends, merge_entries, merge_entry, passes, ClassFilter, ClassRange, SchoolSchedule};

verus! {

/// The Unix time of a local date and hour (minute and second 0) in the Europe/Dublin
/// time zone, or `None` where that local time does not exist or is ambiguous there.
pub uninterp spec fn dublin_timestamp(year: i32, month: u32, day: u32, hour: u32) -> Option<i64>;

/// `chrono_tz::Europe::Dublin.with_ymd_and_hms(year, month, day, hour, 0, 0)`, taken
/// when it is a single time, as a Unix time (`DateTime::timestamp`). Claimed: the
/// result depends on the arguments alone (the time-zone rules are those built into
/// the crate); which time it is is left to the crate.
#[verifier::external_body]
fn local_timestamp(year: i32, month: u32, day: u32, hour: u32) -> (r: Option<i64>)
    ensures
        r == dublin_timestamp(year, month, day, hour),
{
    match chrono_tz::Europe::Dublin.with_ymd_and_hms(year, month, day, hour, 0, 0).single() {
        Some(time) => Some(time.timestamp()),
        None => None,
    }
}

/// The year of the first day of the semester.
pub const SEMESTER_START_YEAR: i32 = 2022;

/// The month of the first day of the semester.
pub const SEMESTER_START_MONTH: u32 = 8;

/// The first day of the semester, a Monday.
pub const SEMESTER_START_DAY: u32 = 8;

/// One event of the calendar file: its title and its start and end as Unix times.
#[derive(Clone, Debug)]
pub struct IcsEvent {
    pub summary: String,
    pub start: i64,
    pub end: i64,
}

/// The local time at which timeslot `t` of weekday `d` of the first week of the
/// semester starts, as a Unix time.
pub open spec fn slot_time(d: int, t: int) -> Option<i64> {
    dublin_timestamp(
        SEMESTER_START_YEAR,
        SEMESTER_START_MONTH,
        (SEMESTER_START_DAY + d) as u32,
        (8 + t) as u32,
    )
}

/// The event of range `r`, titled `name`: from the start of its first timeslot to the
/// end of its last one, which is included (the start of the timeslot after it).
pub open spec fn range_event(r: ClassRange, name: Seq<char>, e: IcsEvent) -> bool {
    &&& e.summary@ == name
    &&& slot_time(r.day.index() as int, r.start_timeslot.index() as int) == Some(e.start)
    &&& slot_time(r.day.index() as int, r.end_timeslot.index() as int + 1) == Some(e.end)
}

/// Every range has a class key below `bound`.
pub open spec fn keys_below(ranges: Seq<ClassRange>, bound: int) -> bool {
    forall|i: int| 0 <= i < ranges.len() ==> (#[trigger] ranges[i]).class_key.0 < bound
}

/// Replacing a range by one of the same class keeps the class keys below `bound`.
proof fn lemma_update_keys(prev: Seq<ClassRange>, c: int, r: ClassRange, bound: int)
    requires
        keys_below(prev, bound),
        0 <= c < prev.len(),
        r.class_key == prev[c].class_key,
    ensures
        keys_below(prev.update(c, r), bound),
{
    let u = prev.update(c, r);
    assert forall|i: int| 0 <= i < u.len() implies (#[trigger] u[i]).class_key.0 < bound by {
        assert(prev[i].class_key.0 < bound);
    }
}

/// Taking in a session whose class key is below `bound` keeps the class keys of the
/// ranges below `bound`.
proof fn lemma_merge_entry_keys(prev: Seq<ClassRange>, e: SingleClassEntry, bound: int)
    requires
        keys_below(prev, bound),
        e.class_key.0 < bound,
    ensures
        keys_below(merge_entry(prev, e), bound),
{
    if exists|i: int| 0 <= i < prev.len() && extends(#[trigger] prev[i], e) {
        let c = choose|i: int|
            0 <= i < prev.len() && extends(#[trigger] prev[i], e) && forall|j: int|
                0 <= j < i ==> !extends(#[trigger] prev[j], e);
        assert(0 <= c < prev.len()) by {
            let w = choose|i: int| 0 <= i < prev.len() && extends(#[trigger] prev[i], e);
            lemma_first_extended(prev, e, w);
        }
        lemma_update_keys(prev, c, ClassRange { end_timeslot: e.timeslot, ..prev[c] }, bound);
    } else {
        let m = merge_entry(prev, e);
        assert forall|i: int| 0 <= i < m.len() implies (#[trigger] m[i]).class_key.0 < bound by {
            if i < prev.len() {
                assert(prev[i].class_key.0 < bound);
            }
        }
    }
}

/// When some range is extended by `e`, there is a first one.
proof fn lemma_first_extended(prev: Seq<ClassRange>, e: SingleClassEntry, w: int)
    requires
        0 <= w < prev.len(),
        extends(prev[w], e),
    ensures
        exists|i: int|
            0 <= i < prev.len() && extends(#[trigger] prev[i], e) && forall|j: int|
                0 <= j < i ==> !extends(#[trigger] prev[j], e),
    decreases w,
{
    if exists|j: int| 0 <= j < w && extends(#[trigger] prev[j], e) {
        let j = choose|j: int| 0 <= j < w && extends(#[trigger] prev[j], e);
        lemma_first_extended(prev, e, j);
    } else {
        assert(forall|j: int| 0 <= j < w ==> !extends(#[trigger] prev[j], e));
    }
}

/// The ranges made of sessions whose class keys are below `bound` have class keys
/// below `bound`.
proof fn lemma_range_keys(entries: Seq<SingleClassEntry>, classes: Seq<Class>, filter: ClassFilter, bound: int)
    requires
        forall|j: int| 0 <= j < entries.len() ==> (#[trigger] entries[j]).class_key.0 < bound,
    ensures
        keys_below(merge_entries(entries, classes, filter), bound),
    decreases entries.len(),
{
    if entries.len() > 0 {
        let prev_entries = entries.drop_last();
        assert forall|j: int| 0 <= j < prev_entries.len() implies (#[trigger] prev_entries[j]).class_key.0
            < bound by {
            assert(prev_entries[j] == entries[j]);
        }
        lemma_range_keys(prev_entries, classes, filter, bound);
        let e = entries.last();
        assert(e == entries[entries.len() - 1]);
        if passes(classes, e, filter) {
            lemma_merge_entry_keys(merge_entries(prev_entries, classes, filter), e, bound);
        }
    }
}

/// Range `r` holds session `e`: same class, same day, and the session's timeslot lies
/// between the range's first and last timeslots.
pub open spec fn range_holds(r: ClassRange, e: SingleClassEntry) -> bool {
    &&& r.class_key == e.class_key
    &&& r.day == e.day
    &&& r.start_timeslot.index() <= e.timeslot.index() <= r.end_timeslot.index()
}

/// Some range of `ranges` holds session `e`.
pub open spec fn held(ranges: Seq<ClassRange>, e: SingleClassEntry) -> bool {
    exists|j: int| 0 <= j < ranges.len() && range_holds(#[trigger] ranges[j], e)
}

/// Some session of `entries` that passes `filter` is of the class of range `r`, on its
/// day, in timeslot `x`.
pub open spec fn backed(entries: Seq<SingleClassEntry>, classes: Seq<Class>, filter: ClassFilter, r: ClassRange, x: int) -> bool {
    exists|i: int|
        0 <= i < entries.len() && passes(classes, #[trigger] entries[i], filter) && entries[i].class_key == r.class_key
            && entries[i].day == r.day && entries[i].timeslot.index() == x
}

/// The ranges that the export makes of the sessions passing a filter lie each on one
/// day and are made of sessions: every session that passes the filter is held by a
/// range of its own class and day, every range starts no later than it ends, and every
/// timeslot from a range's first to its last holds a passing session of the range's
/// class on the range's day.
pub proof fn lemma_ranges_are_sessions(entries: Seq<SingleClassEntry>, classes: Seq<Class>, filter: ClassFilter)
    ensures
        ({
            let ranges = merge_entries(entries, classes, filter);
            &&& forall|i: int|
                0 <= i < entries.len() && passes(classes, #[trigger] entries[i], filter) ==> held(ranges, entries[i])
            &&& forall|j: int|
                0 <= j < ranges.len() ==> (#[trigger] ranges[j]).start_timeslot.index() <= ranges[j].end_timeslot.index()
            &&& forall|j: int, x: int|
                0 <= j < ranges.len() && ranges[j].start_timeslot.index() <= x <= ranges[j].end_timeslot.index()
                    ==> #[trigger] backed(entries, classes, filter, ranges[j], x)
        }),
    decreases entries.len(),
{
    let ranges = merge_entries(entries, classes, filter);
    if entries.len() > 0 {
        let es = entries.drop_last();
        let e = entries.last();
        let n = entries.len() - 1;
        assert(e == entries[n]);
        lemma_ranges_are_sessions(es, classes, filter);
        let prev = merge_entries(es, classes, filter);
        assert forall|i: int| 0 <= i < es.len() implies #[trigger] es[i] == entries[i] by {}
        // sessions backing the earlier ranges are still sessions of the list
        assert forall|r: ClassRange, x: int| backed(es, classes, filter, r, x) implies backed(
            entries,
            classes,
            filter,
            r,
            x,
        ) by {
            let i = choose|i: int|
                0 <= i < es.len() && passes(classes, #[trigger] es[i], filter) && es[i].class_key == r.class_key
                    && es[i].day == r.day && es[i].timeslot.index() == x;
            assert(entries[i] == es[i]);
        }
        if !passes(classes, e, filter) {
            assert(ranges == prev);
            assert forall|i: int|
                0 <= i < entries.len() && passes(classes, #[trigger] entries[i], filter) implies held(
                ranges,
                entries[i],
            ) by {
                assert(i < n);
                assert(es[i] == entries[i]);
            }
        } else if exists|c: int| 0 <= c < prev.len() && extends(#[trigger] prev[c], e) {
            let w = choose|c: int| 0 <= c < prev.len() && extends(#[trigger] prev[c], e);
            lemma_first_extended(prev, e, w);
            let c = choose|c: int|
                0 <= c < prev.len() && extends(#[trigger] prev[c], e) && forall|j: int|
                    0 <= j < c ==> !extends(#[trigger] prev[j], e);
            let r2 = ClassRange { end_timeslot: e.timeslot, ..prev[c] };
            assert(ranges == prev.update(c, r2));
            assert(prev[c].start_timeslot.index() <= prev[c].end_timeslot.index());
            assert forall|i: int|
                0 <= i < entries.len() && passes(classes, #[trigger] entries[i], filter) implies held(
                ranges,
                entries[i],
            ) by {
                if i == n {
                    assert(range_holds(ranges[c], e));
                } else {
                    assert(es[i] == entries[i]);
                    assert(held(prev, es[i]));
                    let j = choose|j: int| 0 <= j < prev.len() && range_holds(#[trigger] prev[j], es[i]);
                    assert(range_holds(ranges[j], entries[i]));
                }
            }
            assert forall|j: int, x: int|
                0 <= j < ranges.len() && ranges[j].start_timeslot.index() <= x
                    <= ranges[j].end_timeslot.index() implies #[trigger] backed(entries, classes, filter, ranges[j], x) by {
                if j == c && x == e.timeslot.index() {
                    assert(passes(classes, entries[n], filter));
                    assert(entries[n].class_key == ranges[j].class_key);
                } else {
                    assert(prev[j].start_timeslot.index() <= x <= prev[j].end_timeslot.index());
                    assert(backed(es, classes, filter, prev[j], x));
                }
            }
        } else {
            let r2 = ClassRange {
                class_key: e.class_key,
                day: e.day,
                start_timeslot: e.timeslot,
                end_timeslot: e.timeslot,
            };
            assert(ranges == prev.push(r2));
            assert forall|i: int|
                0 <= i < entries.len() && passes(classes, #[trigger] entries[i], filter) implies held(
                ranges,
                entries[i],
            ) by {
                if i == n {
                    assert(range_holds(ranges[prev.len() as int], e));
                } else {
                    assert(es[i] == entries[i]);
                    assert(held(prev, es[i]));
                    let j = choose|j: int| 0 <= j < prev.len() && range_holds(#[trigger] prev[j], es[i]);
                    assert(range_holds(ranges[j], entries[i]));
                }
            }
            assert forall|j: int, x: int|
                0 <= j < ranges.len() && ranges[j].start_timeslot.index() <= x
                    <= ranges[j].end_timeslot.index() implies #[trigger] backed(entries, classes, filter, ranges[j], x) by {
                if j == prev.len() {
                    assert(passes(classes, entries[n], filter));
                    assert(entries[n].class_key == ranges[j].class_key);
                } else {
                    assert(prev[j] == ranges[j]);
                    assert(backed(es, classes, filter, prev[j], x));
                }
            }
        }
    }
}

impl SchoolSchedule {
    /// The events of the sessions that pass `class_filter`: one per range of
    /// `class_ranges`, in that order, titled with the class's name, starting at the
    /// start of its first timeslot and ending an hour after the start of its last one
    /// (that timeslot is included), on the
    /// matching weekday of the semester's first week. `None` when one of those local
    /// times has no single Unix time.
    pub fn ics_events(&self, class_filter: &ClassFilter) -> (r: Option<Vec<IcsEvent>>)
        requires
            self.wf(),
            !(class_filter is Classroom),
        ensures
            ({
                let ranges = merge_entries(self.calendar().entries(), self.constraints().classes@, *class_filter);
                &&& r is Some <==> forall|i: int|
                    0 <= i < ranges.len() ==> {
                        &&& slot_time((#[trigger] ranges[i]).day.index() as int, ranges[i].start_timeslot.index() as int) is Some
                        &&& slot_time(ranges[i].day.index() as int, ranges[i].end_timeslot.index() as int + 1) is Some
                    }
                &&& r matches Some(events) ==> {
                    &&& events@.len() == ranges.len()
                    &&& forall|i: int|
                        0 <= i < ranges.len() ==> range_event(
                            #[trigger] ranges[i],
                            self.class_meta()[ranges[i].class_key.0 as int].name@,
                            events@[i],
                        )
                }
            }),
    {
        let ranges = self.class_ranges(class_filter);
        let ghost rs = ranges@;
        proof {
            self.calendar().lemma_wf();
            lemma_range_keys(
                self.calendar().entries(),
                self.constraints().classes@,
                *class_filter,
                self.class_meta().len() as int,
            );
        }
        let mut events: Vec<IcsEvent> = Vec::new();
        let mut i: usize = 0;
        while i < ranges.len()
            invariant
                self.wf(),
                rs == ranges@,
                rs == merge_entries(self.calendar().entries(), self.constraints().classes@, *class_filter),
                keys_below(rs, self.class_meta().len() as int),
                i <= rs.len(),
                events@.len() == i,
                forall|x: int|
                    0 <= x < i ==> range_event(
                        #[trigger] rs[x],
                        self.class_meta()[rs[x].class_key.0 as int].name@,
                        events@[x],
                    ),
                forall|x: int|
                    0 <= x < i ==> {
                        &&& slot_time((#[trigger] rs[x]).day.index() as int, rs[x].start_timeslot.index() as int) is Some
                        &&& slot_time(rs[x].day.index() as int, rs[x].end_timeslot.index() as int + 1) is Some
                    },
            decreases rs.len() - i,
        {
            let range = ranges[i];
            let day = range.day.to_usize() as u32;
            let start_slot = range.start_timeslot.to_usize() as u32;
            let end_slot = range.end_timeslot.to_usize() as u32;
            let start = local_timestamp(
                SEMESTER_START_YEAR,
                SEMESTER_START_MONTH,
                SEMESTER_START_DAY + day,
                8 + start_slot,
            );
            let end = local_timestamp(
                SEMESTER_START_YEAR,
                SEMESTER_START_MONTH,
                SEMESTER_START_DAY + day,
                8 + end_slot + 1,
            );
            match (start, end) {
                (Some(start), Some(end)) => {
                    let meta = self.get_class_metadata(range.class_key);
                    let name = match meta {
                        Some(m) => m.name.clone(),
                        None => String::new(),
                    };
                    proof {
                        assert(rs[i as int].class_key.0 < self.class_meta().len());
                    }
                    events.push(IcsEvent { summary: name, start, end });
                },
                _ => {
                    return None;
                },
            }
            i = i + 1;
        }
        Some(events)
    }
}

} // verus!
