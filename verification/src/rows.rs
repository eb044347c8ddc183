//! Facts about one row of a calendar: which timeslots of a day are occupied.
//! Sessions form runs of consecutive occupied timeslots.
use vstd::prelude::*;

use crate::sums::{count_to, lemma_count_bounds, lemma_count_ext, lemma_count_none, lemma_count_step};

verus! {

/// Length of the run of occupied timeslots that starts at `i` (0 when `i` is free).
pub open spec fn run_len(row: Seq<bool>, i: int) -> int
    decreases row.len() - i,
{
    if 0 <= i < row.len() && row[i] {
        1 + run_len(row, i + 1)
    } else {
        0
    }
}

/// `i` is the first timeslot of a run.
pub open spec fn run_start(row: Seq<bool>, i: int) -> bool {
    row[i] && (i == 0 || !row[i - 1])
}

/// A run length outside the allowed interval `min..=max`.
pub open spec fn outside_length(len: int, min: int, max: int) -> bool {
    len < min || max < len
}

/// Number of runs of the row whose length lies outside `min..=max`.
pub open spec fn runs_outside(row: Seq<bool>, min: int, max: int) -> int {
    count_to(
        row.len() as int,
        |i: int| run_start(row, i) && outside_length(run_len(row, i), min, max),
    )
}

/// The occupied timeslots of the row do not form one block: a free timeslot lies
/// between two occupied ones.
pub open spec fn has_gap(row: Seq<bool>) -> bool {
    exists|i: int, j: int, l: int| 0 <= i < j < l < row.len() && row[i] && !row[j] && row[l]
}

/// Number of free timeslots that lie between two occupied ones.
pub open spec fn holes(row: Seq<bool>) -> int {
    count_to(
        row.len() as int,
        |t: int|
            !row[t] && (exists|a: int| 0 <= a < t && row[a]) && (exists|b: int|
                t < b < row.len() && row[b]),
    )
}

/// A run is at most as long as the distance to any free timeslot after it.
proof fn lemma_run_len_upto(row: Seq<bool>, i: int, j: int)
    requires
        0 <= i <= j,
        j >= row.len() || !row[j],
    ensures
        0 <= run_len(row, i) <= j - i,
    decreases row.len() - i,
{
    if 0 <= i < row.len() && row[i] {
        if i + 1 <= j {
            lemma_run_len_upto(row, i + 1, j);
        }
    }
}

/// A block of occupied timeslots from `i` to `j - 1` followed by a free timeslot (or
/// the end of the row) is a run of length `j - i`.
proof fn lemma_run_len_exact(row: Seq<bool>, i: int, j: int)
    requires
        0 <= i <= j <= row.len(),
        forall|x: int| i <= x < j ==> #[trigger] row[x],
        j == row.len() || !row[j],
    ensures
        run_len(row, i) == j - i,
    decreases j - i,
{
    if i < j {
        lemma_run_len_exact(row, i + 1, j);
    }
}

/// Counts over predicates that agree inside the range but at `b` differ by that one
/// term.
proof fn lemma_count_differ_at(n: int, p: spec_fn(int) -> bool, q: spec_fn(int) -> bool, b: int)
    requires
        0 <= b < n,
        forall|i: int| 0 <= i < n && i != b ==> #[trigger] p(i) == q(i),
        q(b),
        !p(b),
    ensures
        count_to(n, q) == count_to(n, p) + 1,
    decreases n,
{
    if n - 1 == b {
        lemma_count_ext(n - 1, p, q);
        lemma_count_step(n - 1, p);
        lemma_count_step(n - 1, q);
    } else {
        lemma_count_differ_at(n - 1, p, q, b);
        lemma_count_step(n - 1, p);
        lemma_count_step(n - 1, q);
    }
}

/// Number of runs whose length lies outside `min..=max`, counted from left to right.
pub fn count_runs_outside(row: &Vec<bool>, min: u8, max: u8) -> (r: u64)
    requires
        row@.len() < 255,
    ensures
        r == runs_outside(row@, min as int, max as int),
        r <= row@.len(),
{
    let n = row.len();
    let ghost rs = row@;
    let ghost closed = |t: int|
        (|i: int|
            run_start(rs, i) && i + run_len(rs, i) < t && outside_length(
                run_len(rs, i),
                min as int,
                max as int,
            ));
    let mut count: u64 = 0;
    let mut session_length: u8 = 0;
    let mut t: usize = 0;
    while t < n
        invariant
            n == rs.len(),
            rs == row@,
            n < 255,
            t <= n,
            session_length <= t,
            forall|x: int| t - session_length <= x < t ==> #[trigger] rs[x],
            t - session_length == 0 || !rs[t - session_length - 1],
            closed == (|t2: int|
                (|i: int|
                    run_start(rs, i) && i + run_len(rs, i) < t2 && outside_length(
                        run_len(rs, i),
                        min as int,
                        max as int,
                    ))),
            count == count_to(t as int, closed(t as int)),
            count <= t,
        decreases n - t,
    {
        let ghost ti = t as int;
        proof {
            lemma_count_step(ti, closed(ti + 1));
            lemma_count_bounds(ti, closed(ti));
        }
        if row[t] {
            proof {
                assert(!closed(ti + 1)(ti)) by {
                    lemma_run_len_upto(rs, ti + 1, n as int);
                    assert(run_len(rs, ti) == 1 + run_len(rs, ti + 1));
                }
                assert forall|i: int| 0 <= i < ti implies #[trigger] closed(ti)(i) == closed(ti + 1)(i) by {
                    if run_start(rs, i) && i + run_len(rs, i) == ti {
                        lemma_run_len_tail(rs, i, ti);
                    }
                }
                lemma_count_ext(ti, closed(ti), closed(ti + 1));
            }
            session_length = session_length + 1;
        } else {
            if session_length > 0 {
                let start = t - session_length as usize;
                proof {
                    lemma_run_len_exact(rs, start as int, ti);
                    assert(run_start(rs, start as int));
                    assert forall|i: int| 0 <= i < ti && i != start implies #[trigger] closed(ti)(i)
                        == closed(ti + 1)(i) by {
                        if run_start(rs, i) && i + run_len(rs, i) == ti {
                            lemma_run_len_tail(rs, i, ti);
                            if i < start {
                                lemma_run_len_upto(rs, i, start - 1);
                            } else {
                                assert(rs[i - 1]);
                            }
                        }
                    }
                    assert(!closed(ti)(start as int));
                }
                if session_length < min || max < session_length {
                    proof {
                        lemma_count_differ_at(ti, closed(ti), closed(ti + 1), start as int);
                    }
                    count = count + 1;
                } else {
                    proof {
                        lemma_count_ext(ti, closed(ti), closed(ti + 1));
                    }
                }
                session_length = 0;
            } else {
                proof {
                    assert forall|i: int| 0 <= i < ti implies #[trigger] closed(ti)(i) == closed(ti + 1)(
                        i,
                    ) by {
                        if run_start(rs, i) && i + run_len(rs, i) == ti {
                            lemma_run_len_tail(rs, i, ti);
                        }
                    }
                    lemma_count_ext(ti, closed(ti), closed(ti + 1));
                }
            }
        }
        t = t + 1;
    }
    let ghost all = |i: int| run_start(rs, i) && outside_length(run_len(rs, i), min as int, max as int);
    if session_length >= 1 && (session_length < min || max < session_length) {
        let start = n - session_length as usize;
        proof {
            lemma_run_len_exact(rs, start as int, n as int);
            assert(run_start(rs, start as int));
            assert forall|i: int| 0 <= i < n && i != start implies #[trigger] closed(n as int)(i)
                == all(i) by {
                if run_start(rs, i) && i + run_len(rs, i) >= n {
                    lemma_run_len_upto(rs, i, n as int);
                    lemma_run_len_tail(rs, i, n as int);
                    if i < start {
                        lemma_run_len_upto(rs, i, start - 1);
                    } else if i > start {
                        assert(rs[i - 1]);
                    }
                }
            }
            lemma_count_differ_at(n as int, closed(n as int), all, start as int);
            lemma_count_bounds(n as int, all);
        }
        count = count + 1;
    } else {
        proof {
            assert forall|i: int| 0 <= i < n implies #[trigger] closed(n as int)(i) == all(i) by {
                if run_start(rs, i) && i + run_len(rs, i) >= n {
                    lemma_run_len_upto(rs, i, n as int);
                    lemma_run_len_tail(rs, i, n as int);
                    if session_length >= 1 {
                        let start = n - session_length;
                        if i < start {
                            lemma_run_len_upto(rs, i, start - 1);
                        } else if i > start {
                            assert(rs[i - 1]);
                        } else {
                            lemma_run_len_exact(rs, start as int, n as int);
                        }
                    } else {
                        lemma_run_len_upto(rs, i, n - 1);
                    }
                }
            }
            lemma_count_ext(n as int, closed(n as int), all);
        }
    }
    count
}

/// A run that reaches timeslot `j` covers every timeslot from its start to `j - 1`.
proof fn lemma_run_len_tail(row: Seq<bool>, i: int, j: int)
    requires
        0 <= i <= j,
        i + run_len(row, i) >= j,
    ensures
        forall|x: int| i <= x < j ==> #[trigger] row[x],
        i + run_len(row, i) == j ==> (j >= row.len() || !row[j]),
    decreases j - i,
{
    if i < j {
        assert(run_len(row, i) > 0);
        lemma_run_len_tail(row, i + 1, j);
    } else {
        if j < row.len() && row[j] {
            lemma_run_len_upto(row, i + 1, row.len() as int);
            assert(run_len(row, i) > 0);
        }
    }
}

/// `true` when two occupied timeslots of the row are separated by a free one: some
/// two consecutive occupied timeslots are more than one apart.
pub fn row_has_gap(row: &Vec<bool>) -> (r: bool)
    ensures
        r == has_gap(row@),
{
    let n = row.len();
    let ghost rs = row@;
    let mut seen = false;
    let mut last: usize = 0;
    let mut found = false;
    let mut t: usize = 0;
    while t < n
        invariant
            n == rs.len(),
            rs == row@,
            t <= n,
            seen == (exists|a: int| 0 <= a < t && rs[a]),
            seen ==> (last < t && rs[last as int] && forall|a: int| last < a < t ==> !#[trigger] rs[a]),
            found == (exists|i: int, j: int, l: int| 0 <= i < j < l < t && rs[i] && !rs[j] && rs[l]),
        decreases n - t,
    {
        if row[t] {
            if seen && last + 1 < t {
                proof {
                    assert(!rs[last + 1]);
                    assert(0 <= last < last + 1 < t < t + 1 && rs[last as int] && !rs[last + 1]
                        && rs[t as int]);
                }
                found = true;
            } else {
                proof {
                    assert forall|i: int, j: int, l: int|
                        0 <= i < j < l < t + 1 && rs[i] && !rs[j] && rs[l] implies (exists|
                        i2: int,
                        j2: int,
                        l2: int,
                    | 0 <= i2 < j2 < l2 < t && rs[i2] && !rs[j2] && rs[l2]) by {
                        if l == t {
                            assert(seen);
                            if j < last {
                                assert(0 <= i < j < last < t && rs[i] && !rs[j] && rs[last as int]);
                            } else {
                                assert(last < j < t);
                            }
                        }
                    }
                }
            }
            seen = true;
            last = t;
        } else {
            proof {
                assert forall|i: int, j: int, l: int|
                    0 <= i < j < l < t + 1 && rs[i] && !rs[j] && rs[l] implies (exists|
                    i2: int,
                    j2: int,
                    l2: int,
                | 0 <= i2 < j2 < l2 < t && rs[i2] && !rs[j2] && rs[l2]) by {
                    assert(l != t);
                }
            }
        }
        t = t + 1;
    }
    found
}

/// Number of free timeslots between the first and the last occupied one.
pub fn count_holes(row: &Vec<bool>) -> (r: u64)
    requires
        row@.len() < 255,
    ensures
        r == holes(row@),
        r <= row@.len(),
{
    let n = row.len();
    let ghost rs = row@;
    let mut first: usize = 0;
    while first < n && !row[first]
        invariant
            n == rs.len(),
            rs == row@,
            first <= n,
            forall|a: int| 0 <= a < first ==> !#[trigger] rs[a],
        decreases n - first,
    {
        first = first + 1;
    }
    let ghost hole = |t: int|
        !rs[t] && (exists|a: int| 0 <= a < t && rs[a]) && (exists|b: int| t < b < rs.len() && rs[b]);
    if first == n {
        proof {
            assert forall|t: int| 0 <= t < n implies #[trigger] hole(t) == false by {
                if exists|a: int| 0 <= a < t && rs[a] {
                    let a = choose|a: int| 0 <= a < t && rs[a];
                    assert(!rs[a]);
                }
            }
            lemma_count_none(n as int, hole);
            lemma_count_ext(n as int, hole, |t: int|
                !row@[t] && (exists|a: int| 0 <= a < t && row@[a]) && (exists|b: int|
                    t < b < row@.len() && row@[b]));
        }
        return 0;
    }
    let mut last: usize = n - 1;
    while !row[last]
        invariant
            n == rs.len(),
            rs == row@,
            first <= last < n,
            rs[first as int],
            forall|b: int| last < b < n ==> !#[trigger] rs[b],
        decreases last,
    {
        last = last - 1;
    }
    let mut count: u64 = 0;
    let mut t: usize = 0;
    while t < n
        invariant
            n == rs.len(),
            rs == row@,
            n < 255,
            first <= last < n,
            rs[first as int],
            rs[last as int],
            forall|a: int| 0 <= a < first ==> !#[trigger] rs[a],
            forall|b: int| last < b < n ==> !#[trigger] rs[b],
            t <= n,
            hole == (|t2: int|
                !rs[t2] && (exists|a: int| 0 <= a < t2 && rs[a]) && (exists|b: int|
                    t2 < b < rs.len() && rs[b])),
            count == count_to(t as int, hole),
            count <= t,
        decreases n - t,
    {
        proof {
            lemma_count_step(t as int, hole);
            if hole(t as int) {
                let a = choose|a: int| 0 <= a < t && rs[a];
                let b = choose|b: int| t < b < rs.len() && rs[b];
            }
            if first <= t <= last && !rs[t as int] {
                assert(first < t < last);
                assert(hole(t as int));
            }
        }
        if first <= t && t <= last && !row[t] {
            count = count + 1;
        }
        t = t + 1;
    }
    count
}

} // verus!
