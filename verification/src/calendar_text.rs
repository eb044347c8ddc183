//! The calendar of sessions as text: one line per timeslot, and per day the class of
//! each session written once per session, padded with dashes to the widest cell.
use vstd::prelude::*;

use crate::constraints::digit_char;
use crate::evaluators::max_of;
use crate::importer::{decimal, string_from_chars};
use crate::session_calendar::{session_at, CalendarState};
use crate::week_calendar::{cell_index, lemma_cell_index_bijective, DAY_COUNT, TIMESLOT_COUNT};

verus! {

/// `s` written `n` times.
pub open spec fn repeat(s: Seq<char>, n: nat) -> Seq<char>
    decreases n,
{
    if n == 0 {
        Seq::empty()
    } else {
        repeat(s, (n - 1) as nat) + s
    }
}

/// The first `j` classes of cell (`d`, `t`), each written once per session there.
pub open spec fn cell_sessions_text(state: CalendarState, d: int, t: int, j: int) -> Seq<char>
    decreases j,
{
    if j <= 0 {
        Seq::empty()
    } else {
        cell_sessions_text(state, d, t, j - 1) + repeat(
            decimal(state.cell_classes(d, t)[j - 1] as nat),
            state.count(session_at(state.cell_classes(d, t)[j - 1], d, t)),
        )
    }
}

/// Cell (`d`, `t`): its sessions, dashes up to `width` characters of sessions, and a
/// space.
pub open spec fn cell_text(state: CalendarState, d: int, t: int, width: int) -> Seq<char> {
    cell_sessions_text(state, d, t, state.cell_classes(d, t).len() as int) + repeat(
        seq!['-'],
        (width - state.cell_total(d, t)) as nat,
    ) + seq![' ']
}

/// The cells of timeslot `t` on the first `d` days.
pub open spec fn row_text(state: CalendarState, t: int, width: int, d: int) -> Seq<char>
    decreases d,
{
    if d <= 0 {
        Seq::empty()
    } else {
        row_text(state, t, width, d - 1) + cell_text(state, d - 1, t, width)
    }
}

/// The lines of the first `t` timeslots.
pub open spec fn grid_text(state: CalendarState, width: int, t: int) -> Seq<char>
    decreases t,
{
    if t <= 0 {
        Seq::empty()
    } else {
        grid_text(state, width, t - 1) + row_text(state, t - 1, width, DAY_COUNT as int) + seq!['\n']
    }
}

/// The number of sessions of the fullest cell, and at least 1.
pub open spec fn text_width(state: CalendarState) -> int {
    let widest = max_of(
        (DAY_COUNT * TIMESLOT_COUNT) as int,
        |c: int| state.cell_total(c / TIMESLOT_COUNT as int, c % TIMESLOT_COUNT as int) as int,
    );
    if widest >= 1 {
        widest
    } else {
        1
    }
}

/// The calendar as text.
pub open spec fn calendar_text(state: CalendarState) -> Seq<char> {
    grid_text(state, text_width(state), TIMESLOT_COUNT as int)
}

/// Every value is at most the largest.
proof fn lemma_le_max(n: int, f: spec_fn(int) -> int, i: int)
    requires
        0 <= i < n,
    ensures
        f(i) <= max_of(n, f),
    decreases n,
{
    if n > 1 && i < n - 1 {
        lemma_le_max(n - 1, f, i);
    }
}

/// The character of decimal digit `d`.
fn digit(d: usize) -> (r: char)
    requires
        d < 10,
    ensures
        r == digit_char(d as int),
{
    match d {
        0 => '0',
        1 => '1',
        2 => '2',
        3 => '3',
        4 => '4',
        5 => '5',
        6 => '6',
        7 => '7',
        8 => '8',
        _ => '9',
    }
}

/// Appends the decimal writing of `n`.
fn push_decimal(out: &mut Vec<char>, n: usize)
    ensures
        final(out)@ == old(out)@ + decimal(n as nat),
    decreases n,
{
    if n >= 10 {
        push_decimal(out, n / 10);
    }
    out.push(digit(n % 10));
    proof {
        if n >= 10 {
            assert(decimal(n as nat) == decimal((n / 10) as nat).push(digit_char((n % 10) as int)));
        }
    }
    assert(out@ =~= old(out)@ + decimal(n as nat));
}

/// Appends `s` as many times as `n`.
fn push_repeated_decimal(out: &mut Vec<char>, k: usize, n: usize)
    ensures
        final(out)@ == old(out)@ + repeat(decimal(k as nat), n as nat),
{
    let mut i: usize = 0;
    while i < n
        invariant
            i <= n,
            out@ == old(out)@ + repeat(decimal(k as nat), i as nat),
        decreases n - i,
    {
        let ghost before = out@;
        push_decimal(out, k);
        assert(out@ =~= old(out)@ + repeat(decimal(k as nat), (i + 1) as nat));
        i = i + 1;
    }
}

impl CalendarState {
    /// The calendar as text: for each timeslot a line, and on it for each day the class
    /// of every session in the cell (once per session), then dashes up to the number
    /// of sessions of the fullest cell (at least 1), then a space.
    pub fn to_text(&self) -> (r: String)
        requires
            self.wf(),
        ensures
            r@ == calendar_text(*self),
    {
        let matrix = self.get_schedule_matrix();
        let ghost cells = |c: int| self.cell_total(c / TIMESLOT_COUNT as int, c % TIMESLOT_COUNT as int) as int;
        let mut widest: usize = 0;
        let mut c: usize = 0;
        while c < DAY_COUNT * TIMESLOT_COUNT
            invariant
                self.wf(),
                matrix@.len() == DAY_COUNT * TIMESLOT_COUNT,
                forall|d2: int, t2: int|
                    0 <= d2 < DAY_COUNT && 0 <= t2 < TIMESLOT_COUNT ==> #[trigger] matrix@[cell_index(d2, t2)].total()
                        == self.cell_total(d2, t2),
                cells == (|c2: int| self.cell_total(c2 / TIMESLOT_COUNT as int, c2 % TIMESLOT_COUNT as int) as int),
                c <= DAY_COUNT * TIMESLOT_COUNT,
                c > 0 ==> widest == max_of(c as int, cells),
                c == 0 ==> widest == 0,
            decreases DAY_COUNT * TIMESLOT_COUNT - c,
        {
            let ghost d = c as int / TIMESLOT_COUNT as int;
            let ghost t = c as int % TIMESLOT_COUNT as int;
            proof {
                assert(cell_index(d, t) == c);
                assert(matrix@[cell_index(d, t)].total() == self.cell_total(d, t));
            }
            let x = matrix[c].count_total();
            if c == 0 || x > widest {
                widest = x;
            }
            c = c + 1;
        }
        let width: usize = if widest >= 1 {
            widest
        } else {
            1
        };
        proof {
            assert(cells =~= (|c2: int| self.cell_total(c2 / TIMESLOT_COUNT as int, c2 % TIMESLOT_COUNT as int) as int));
        }
        let ghost w = width as int;
        proof {
            assert forall|d2: int, t2: int|
                0 <= d2 < DAY_COUNT && 0 <= t2 < TIMESLOT_COUNT implies #[trigger] self.cell_total(d2, t2) <= w by {
                let c2 = cell_index(d2, t2);
                lemma_cell_index_bijective(d2, t2, d2, t2);
                assert(c2 / TIMESLOT_COUNT as int == d2 && c2 % TIMESLOT_COUNT as int == t2);
                lemma_le_max((DAY_COUNT * TIMESLOT_COUNT) as int, cells, c2);
            }
        }
        let mut out: Vec<char> = Vec::new();
        let mut t: usize = 0;
        while t < TIMESLOT_COUNT
            invariant
                self.wf(),
                matrix@.len() == DAY_COUNT * TIMESLOT_COUNT,
                forall|i: int| 0 <= i < DAY_COUNT * TIMESLOT_COUNT ==> (#[trigger] matrix@[i]).wf(),
                forall|c2: usize, d2: int, t2: int|
                    0 <= d2 < DAY_COUNT && 0 <= t2 < TIMESLOT_COUNT ==> #[trigger] matrix@[cell_index(d2, t2)].count(c2)
                        == self.count(session_at(c2, d2, t2)),
                forall|d2: int, t2: int|
                    0 <= d2 < DAY_COUNT && 0 <= t2 < TIMESLOT_COUNT ==> #[trigger] matrix@[cell_index(d2, t2)].total()
                        == self.cell_total(d2, t2),
                forall|d2: int, t2: int|
                    0 <= d2 < DAY_COUNT && 0 <= t2 < TIMESLOT_COUNT ==> #[trigger] matrix@[cell_index(d2, t2)].key_seq()
                        == self.cell_classes(d2, t2),
                forall|d2: int, t2: int|
                    0 <= d2 < DAY_COUNT && 0 <= t2 < TIMESLOT_COUNT ==> #[trigger] self.cell_total(d2, t2) <= w,
                w == width,
                w == text_width(*self),
                t <= TIMESLOT_COUNT,
                out@ == grid_text(*self, w, t as int),
            decreases TIMESLOT_COUNT - t,
        {
            let mut d: usize = 0;
            while d < DAY_COUNT
                invariant
                    self.wf(),
                    matrix@.len() == DAY_COUNT * TIMESLOT_COUNT,
                    forall|i: int| 0 <= i < DAY_COUNT * TIMESLOT_COUNT ==> (#[trigger] matrix@[i]).wf(),
                    forall|c2: usize, d2: int, t2: int|
                        0 <= d2 < DAY_COUNT && 0 <= t2 < TIMESLOT_COUNT ==> #[trigger] matrix@[cell_index(d2, t2)].count(c2)
                            == self.count(session_at(c2, d2, t2)),
                    forall|d2: int, t2: int|
                        0 <= d2 < DAY_COUNT && 0 <= t2 < TIMESLOT_COUNT ==> #[trigger] matrix@[cell_index(d2, t2)].total()
                            == self.cell_total(d2, t2),
                    forall|d2: int, t2: int|
                        0 <= d2 < DAY_COUNT && 0 <= t2 < TIMESLOT_COUNT ==> #[trigger] matrix@[cell_index(d2, t2)].key_seq()
                            == self.cell_classes(d2, t2),
                    forall|d2: int, t2: int|
                        0 <= d2 < DAY_COUNT && 0 <= t2 < TIMESLOT_COUNT ==> #[trigger] self.cell_total(d2, t2) <= w,
                    w == width,
                    t < TIMESLOT_COUNT,
                    d <= DAY_COUNT,
                    out@ == grid_text(*self, w, t as int) + row_text(*self, t as int, w, d as int),
                decreases DAY_COUNT - d,
            {
                proof {
                    lemma_cell_index_bijective(d as int, t as int, d as int, t as int);
                    assert(cell_index(d as int, t as int) == d * TIMESLOT_COUNT + t);
                }
                let cell = &matrix[d * TIMESLOT_COUNT + t];
                let entries = cell.iter();
                let ghost keys = self.cell_classes(d as int, t as int);
                let ghost start = out@;
                let mut j: usize = 0;
                while j < entries.len()
                    invariant
                        entries@.len() == keys.len(),
                        forall|x: int|
                            0 <= x < keys.len() ==> (#[trigger] entries@[x]).0 == keys[x] && entries@[x].1 == self.count(
                                session_at(keys[x], d as int, t as int),
                            ),
                        keys == self.cell_classes(d as int, t as int),
                        j <= keys.len(),
                        out@ == start + cell_sessions_text(*self, d as int, t as int, j as int),
                    decreases keys.len() - j,
                {
                    let (k, n) = entries[j];
                    push_repeated_decimal(&mut out, k, n);
                    assert(out@ =~= start + cell_sessions_text(*self, d as int, t as int, j + 1));
                    j = j + 1;
                }
                let total = cell.count_total();
                let mut dash: usize = 0;
                let ghost before_dashes = out@;
                while dash < width - total
                    invariant
                        total <= width,
                        dash <= width - total,
                        out@ == before_dashes + repeat(seq!['-'], dash as nat),
                    decreases width - total - dash,
                {
                    out.push('-');
                    assert(out@ =~= before_dashes + repeat(seq!['-'], (dash + 1) as nat));
                    dash = dash + 1;
                }
                out.push(' ');
                proof {
                    assert(out@ =~= start + cell_text(*self, d as int, t as int, w));
                    assert(out@ =~= grid_text(*self, w, t as int) + row_text(*self, t as int, w, d + 1));
                }
                d = d + 1;
            }
            out.push('\n');
            assert(out@ =~= grid_text(*self, w, t + 1));
            t = t + 1;
        }
        string_from_chars(&out)
    }
}

} // verus!
