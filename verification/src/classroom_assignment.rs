//! Assigning rooms to the sessions of every cell of the week. In each cell the classes
//! with a session there and the rooms they may use form a bipartite graph; a maximum
//! matching of it gives as many classes as possible a room of an allowed kind, and
//! the sessions left without a room are collisions.
use vstd::prelude::*;

use crate::class_calendar::ClassCalendar;
use crate::constraints::{
    all_classrooms, classroom_index, classroom_type_of, ClassKey, Classroom, OptimizationConstraints,
    CLASSROOM_COUNT,
};
use crate::heuristics::{cell_total, classes_known, slot_total};
use crate::sums::{lemma_count_le_sum, lemma_distinct_le_count, lemma_sum_ext, sum_to};
use crate::week_calendar::{Day, Timeslot, DAY_COUNT, TIMESLOT_COUNT};

verus! {

/// The session of a class in a cell of the week, to which a room is assigned.
#[derive(Clone, Copy, Debug, PartialEq, Eq, Hash, PartialOrd, Ord)]
pub struct ClassroomAssignmentKey {
    pub day: Day,
    pub timeslot: Timeslot,
    pub class_key: ClassKey,
}

/// The room at position `i` of the list of all rooms.
pub open spec fn room_at(i: int) -> Classroom {
    if i == 0 {
        Classroom::Aula1
    } else if i == 1 {
        Classroom::Aula2_3
    } else if i == 2 {
        Classroom::Aula4
    } else if i == 3 {
        Classroom::Aula5_6
    } else if i == 4 {
        Classroom::SalaSeminarios
    } else if i == 5 {
        Classroom::SalaComputo
    } else if i == 6 {
        Classroom::LabFisica
    } else if i == 7 {
        Classroom::LabQuimica
    } else {
        Classroom::NotAssigned
    }
}

/// A room is the room at its own position.
proof fn lemma_room_at_index(room: Classroom)
    ensures
        room_at(classroom_index(room)) == room,
        0 <= classroom_index(room) < CLASSROOM_COUNT,
{
}

/// Class `k` may be taught in `room`: the room's kind is allowed for the class.
pub open spec fn may_host(constraints: OptimizationConstraints, k: int, room: Classroom) -> bool {
    constraints.classes@[k].allowed_classroom_types.has(classroom_type_of(room))
}

/// An edge of the graph of (`d`, `t`): from class vertex `(0, k)` to room vertex
/// `(1, i)`, where class `k` has a session in the cell and may use the room at `i`.
pub open spec fn cell_edge(
    state: ClassCalendar,
    constraints: OptimizationConstraints,
    d: int,
    t: int,
    e: ((u8, usize), (u8, usize)),
) -> bool {
    &&& e.0.0 == 0
    &&& e.1.0 == 1
    &&& e.0.1 < state.num_classes()
    &&& state.count(e.0.1 as int, d, t) > 0
    &&& e.1.1 < CLASSROOM_COUNT
    &&& may_host(constraints, e.0.1 as int, room_at(e.1.1 as int))
}

/// `m` is a matching of the graph with edge list `edges`: its pairs are edges, and no
/// vertex occurs in two of them.
pub open spec fn is_matching(
    m: Seq<((u8, usize), (u8, usize))>,
    edges: Seq<((u8, usize), (u8, usize))>,
) -> bool {
    &&& forall|i: int| 0 <= i < m.len() ==> edges.contains(#[trigger] m[i])
    &&& forall|i: int, j: int| 0 <= i < j < m.len() ==> m[i].0 != m[j].0 && m[i].1 != m[j].1
}

/// `m` is a matching of the graph, and no matching of it is larger.
pub open spec fn is_maximum_matching(
    m: Seq<((u8, usize), (u8, usize))>,
    edges: Seq<((u8, usize), (u8, usize))>,
) -> bool {
    &&& is_matching(m, edges)
    &&& forall|m2: Seq<((u8, usize), (u8, usize))>| #[trigger] is_matching(m2, edges) ==> m2.len() <= m.len()
}

/// Computes a maximum matching of a bipartite graph given by its edges, from left
/// vertex to right vertex, with `hopcroft_karp::matching`, which panics when a vertex
/// is both a left and a right vertex.
/// Claimed: the result is a matching of the graph, each pair written from its left
/// vertex, and no matching is larger (the crate runs the Hopcroft-Karp algorithm to
/// the end). Which of several maximum matchings comes out is left unsaid.
#[verifier::external_body]
fn maximum_matching(edges: &Vec<((u8, usize), (u8, usize))>) -> (r: Vec<((u8, usize), (u8, usize))>)
    requires
        forall|i: int, j: int| 0 <= i < edges@.len() && 0 <= j < edges@.len() ==> edges@[i].0 != edges@[j].1,
    ensures
        is_maximum_matching(r@, edges@),
{
    hopcroft_karp::matching(edges)
}

/// `a` assigns rooms in (`d`, `t`): every pair is a class with a session in the cell
/// and a room it may use, and no class and no room occurs twice.
pub open spec fn is_cell_assignment(
    state: ClassCalendar,
    constraints: OptimizationConstraints,
    d: int,
    t: int,
    a: Seq<(ClassroomAssignmentKey, Classroom)>,
) -> bool {
    &&& forall|i: int|
        0 <= i < a.len() ==> {
            let key = (#[trigger] a[i]).0;
            &&& key.day.index() == d
            &&& key.timeslot.index() == t
            &&& key.class_key.0 < state.num_classes()
            &&& state.count(key.class_key.0 as int, d, t) > 0
            &&& may_host(constraints, key.class_key.0 as int, a[i].1)
        }
    &&& forall|i: int, j: int|
        0 <= i < j < a.len() ==> a[i].0.class_key != a[j].0.class_key && a[i].1 != a[j].1
}

/// `a` assigns rooms in (`d`, `t`), and no assignment there gives a room to more
/// sessions.
pub open spec fn is_maximum_cell_assignment(
    state: ClassCalendar,
    constraints: OptimizationConstraints,
    d: int,
    t: int,
    a: Seq<(ClassroomAssignmentKey, Classroom)>,
) -> bool {
    &&& is_cell_assignment(state, constraints, d, t, a)
    &&& forall|b: Seq<(ClassroomAssignmentKey, Classroom)>|
        #[trigger] is_cell_assignment(state, constraints, d, t, b) ==> b.len() <= a.len()
}

/// The most sessions of (`d`, `t`) that can get a room.
pub open spec fn cell_capacity(
    state: ClassCalendar,
    constraints: OptimizationConstraints,
    d: int,
    t: int,
) -> int {
    (choose|a: Seq<(ClassroomAssignmentKey, Classroom)>|
        is_maximum_cell_assignment(state, constraints, d, t, a)).len() as int
}

/// A maximum assignment has as many pairs as the cell's capacity, and the capacity
/// is at most the number of sessions in the cell.
proof fn lemma_capacity(
    state: ClassCalendar,
    constraints: OptimizationConstraints,
    d: int,
    t: int,
    a: Seq<(ClassroomAssignmentKey, Classroom)>,
)
    requires
        state.wf(),
        is_maximum_cell_assignment(state, constraints, d, t, a),
    ensures
        cell_capacity(state, constraints, d, t) == a.len(),
        a.len() <= slot_total(state, d, t),
{
    let b = choose|b: Seq<(ClassroomAssignmentKey, Classroom)>|
        is_maximum_cell_assignment(state, constraints, d, t, b);
    assert(is_cell_assignment(state, constraints, d, t, a));
    assert(is_cell_assignment(state, constraints, d, t, b));
    let n = state.num_classes() as int;
    let p = |k: int| state.count(k, d, t) > 0;
    let s = Seq::new(a.len(), |i: int| a[i].0.class_key.0 as int);
    assert forall|i: int| 0 <= i < s.len() implies 0 <= #[trigger] s[i] < n && p(s[i]) by {
        assert(is_cell_assignment(state, constraints, d, t, a));
        let x = a[i];
    }
    assert forall|i: int, j: int| 0 <= i < j < s.len() implies s[i] != s[j] by {
        assert(a[i].0.class_key != a[j].0.class_key);
    }
    lemma_distinct_le_count(s, n, p);
    lemma_count_le_sum(n, p, |k: int| state.count(k, d, t));
}

/// The edges of the graph of (`day`, `timeslot`), each listed once: for every class
/// with a session there, the rooms of the kinds it allows.
fn cell_edges(
    state: &ClassCalendar,
    constraints: &OptimizationConstraints,
    day: Day,
    timeslot: Timeslot,
) -> (r: Vec<((u8, usize), (u8, usize))>)
    requires
        classes_known(*state, *constraints),
    ensures
        forall|i: int|
            0 <= i < r@.len() ==> cell_edge(
                *state,
                *constraints,
                day.index() as int,
                timeslot.index() as int,
                #[trigger] r@[i],
            ),
        forall|e: ((u8, usize), (u8, usize))|
            cell_edge(*state, *constraints, day.index() as int, timeslot.index() as int, e)
                ==> #[trigger] r@.contains(e),
{
    let n = state.class_count();
    let rooms = all_classrooms();
    let ghost d = day.index() as int;
    let ghost t = timeslot.index() as int;
    let mut r: Vec<((u8, usize), (u8, usize))> = Vec::new();
    let mut k: usize = 0;
    while k < n
        invariant
            classes_known(*state, *constraints),
            n == state.num_classes(),
            d == day.index(),
            t == timeslot.index(),
            rooms@.len() == CLASSROOM_COUNT,
            forall|i: int| 0 <= i < CLASSROOM_COUNT ==> classroom_index(#[trigger] rooms@[i]) == i,
            k <= n,
            forall|i: int| 0 <= i < r@.len() ==> cell_edge(*state, *constraints, d, t, #[trigger] r@[i]),
            forall|e: ((u8, usize), (u8, usize))|
                cell_edge(*state, *constraints, d, t, e) && e.0.1 < k ==> #[trigger] r@.contains(e),
        decreases n - k,
    {
        let c = state.get_count(day, timeslot, ClassKey(k));
        if c > 0 {
            let types = constraints.classes[k].allowed_classroom_types;
            let mut ri: usize = 0;
            while ri < CLASSROOM_COUNT
                invariant
                    classes_known(*state, *constraints),
                    n == state.num_classes(),
                    k < n,
                    d == day.index(),
                    t == timeslot.index(),
                    state.count(k as int, d, t) > 0,
                    types == constraints.classes@[k as int].allowed_classroom_types,
                    rooms@.len() == CLASSROOM_COUNT,
                    forall|i: int| 0 <= i < CLASSROOM_COUNT ==> classroom_index(#[trigger] rooms@[i]) == i,
                    ri <= CLASSROOM_COUNT,
                    forall|i: int| 0 <= i < r@.len() ==> cell_edge(*state, *constraints, d, t, #[trigger] r@[i]),
                    forall|e: ((u8, usize), (u8, usize))|
                        cell_edge(*state, *constraints, d, t, e) && (e.0.1 < k || (e.0.1 == k && e.1.1 < ri))
                            ==> #[trigger] r@.contains(e),
                decreases CLASSROOM_COUNT - ri,
            {
                let room = rooms[ri];
                proof {
                    lemma_room_at_index(room);
                }
                if types.contains(room.get_type()) {
                    let ghost old_r = r@;
                    let edge = ((0u8, k), (1u8, ri));
                    r.push(edge);
                    proof {
                        assert(r@[old_r.len() as int] == edge);
                        assert forall|e: ((u8, usize), (u8, usize))|
                            cell_edge(*state, *constraints, d, t, e) && (e.0.1 < k || (e.0.1 == k && e.1.1
                                < ri + 1)) implies #[trigger] r@.contains(e) by {
                            if e.0.1 == k && e.1.1 == ri {
                                assert(e == edge);
                            } else {
                                assert(old_r.contains(e));
                                let j = choose|j: int| 0 <= j < old_r.len() && old_r[j] == e;
                                assert(r@[j] == e);
                            }
                        }
                    }
                } else {
                    proof {
                        assert forall|e: ((u8, usize), (u8, usize))|
                            cell_edge(*state, *constraints, d, t, e) && (e.0.1 < k || (e.0.1 == k && e.1.1
                                < ri + 1)) implies #[trigger] r@.contains(e) by {
                            if e.0.1 == k && e.1.1 == ri {
                                assert(room_at(ri as int) == room);
                            }
                        }
                    }
                }
                ri = ri + 1;
            }
        }
        k = k + 1;
    }
    r
}

/// Assigns rooms to the sessions of (`day`, `timeslot`): a maximum assignment, found
/// as a maximum matching between the classes with a session there and the rooms they
/// may use.
pub fn timeslot_assign_classrooms(
    state: &ClassCalendar,
    constraints: &OptimizationConstraints,
    day: Day,
    timeslot: Timeslot,
) -> (r: Vec<(ClassroomAssignmentKey, Classroom)>)
    requires
        classes_known(*state, *constraints),
    ensures
        is_maximum_cell_assignment(*state, *constraints, day.index() as int, timeslot.index() as int, r@),
{
    let ghost d = day.index() as int;
    let ghost t = timeslot.index() as int;
    let edges = cell_edges(state, constraints, day, timeslot);
    proof {
        assert forall|i: int, j: int|
            0 <= i < edges@.len() && 0 <= j < edges@.len() implies edges@[i].0 != edges@[j].1 by {
            assert(cell_edge(*state, *constraints, d, t, edges@[i]));
            assert(cell_edge(*state, *constraints, d, t, edges@[j]));
        }
    }
    let m = maximum_matching(&edges);
    let rooms = all_classrooms();
    let mut r: Vec<(ClassroomAssignmentKey, Classroom)> = Vec::new();
    let mut i: usize = 0;
    while i < m.len()
        invariant
            classes_known(*state, *constraints),
            d == day.index(),
            t == timeslot.index(),
            rooms@.len() == CLASSROOM_COUNT,
            forall|x: int| 0 <= x < CLASSROOM_COUNT ==> classroom_index(#[trigger] rooms@[x]) == x,
            forall|x: int| 0 <= x < edges@.len() ==> cell_edge(*state, *constraints, d, t, #[trigger] edges@[x]),
            is_maximum_matching(m@, edges@),
            i <= m@.len(),
            r@.len() == i,
            forall|x: int|
                0 <= x < i ==> {
                    let (key, room) = #[trigger] r@[x];
                    &&& key.day == day
                    &&& key.timeslot == timeslot
                    &&& key.class_key.0 == m@[x].0.1
                    &&& classroom_index(room) == m@[x].1.1
                },
        decreases m@.len() - i,
    {
        let (class_vertex, room_vertex) = m[i];
        proof {
            assert(edges@.contains(m@[i as int]));
            let j = choose|j: int| 0 <= j < edges@.len() && edges@[j] == m@[i as int];
            assert(cell_edge(*state, *constraints, d, t, edges@[j]));
        }
        let key = ClassroomAssignmentKey { day, timeslot, class_key: ClassKey(class_vertex.1) };
        r.push((key, rooms[room_vertex.1]));
        i = i + 1;
    }
    proof {
        assert forall|x: int| 0 <= x < r@.len() implies {
            let key = (#[trigger] r@[x]).0;
            &&& key.day.index() == d
            &&& key.timeslot.index() == t
            &&& key.class_key.0 < state.num_classes()
            &&& state.count(key.class_key.0 as int, d, t) > 0
            &&& may_host(*constraints, key.class_key.0 as int, r@[x].1)
        } by {
            assert(edges@.contains(m@[x]));
            let j = choose|j: int| 0 <= j < edges@.len() && edges@[j] == m@[x];
            assert(cell_edge(*state, *constraints, d, t, edges@[j]));
            lemma_room_at_index(r@[x].1);
        }
        assert forall|x: int, y: int| 0 <= x < y < r@.len() implies r@[x].0.class_key != r@[y].0.class_key
            && r@[x].1 != r@[y].1 by {
            assert(m@[x].0 != m@[y].0 && m@[x].1 != m@[y].1);
            assert(edges@.contains(m@[x]));
            assert(edges@.contains(m@[y]));
            let jx = choose|j: int| 0 <= j < edges@.len() && edges@[j] == m@[x];
            let jy = choose|j: int| 0 <= j < edges@.len() && edges@[j] == m@[y];
            assert(cell_edge(*state, *constraints, d, t, edges@[jx]));
            assert(cell_edge(*state, *constraints, d, t, edges@[jy]));
        }
        assert(is_cell_assignment(*state, *constraints, d, t, r@));
        assert forall|b: Seq<(ClassroomAssignmentKey, Classroom)>|
            #[trigger] is_cell_assignment(*state, *constraints, d, t, b) implies b.len() <= r@.len() by {
            let m2 = Seq::new(
                b.len(),
                |x: int| ((0u8, b[x].0.class_key.0), (1u8, classroom_index(b[x].1) as usize)),
            );
            assert forall|x: int| 0 <= x < m2.len() implies edges@.contains(#[trigger] m2[x]) by {
                lemma_room_at_index(b[x].1);
                assert(cell_edge(*state, *constraints, d, t, m2[x]));
            }
            assert forall|x: int, y: int| 0 <= x < y < m2.len() implies m2[x].0 != m2[y].0 && m2[x].1
                != m2[y].1 by {
                lemma_room_at_index(b[x].1);
                lemma_room_at_index(b[y].1);
            }
            assert(is_matching(m2, edges@));
        }
    }
    r
}

/// Assigns rooms to the sessions of every cell of the week, cell after cell (days in
/// order, and timeslots in order within a day); in each cell the assignment is a
/// maximum one.
pub fn assign_classrooms(state: &ClassCalendar, constraints: &OptimizationConstraints) -> (r: Vec<
    (ClassroomAssignmentKey, Classroom),
>)
    requires
        classes_known(*state, *constraints),
    ensures
        exists|cells: Seq<Seq<(ClassroomAssignmentKey, Classroom)>>|
            {
                &&& cells.len() == DAY_COUNT * TIMESLOT_COUNT
                &&& r@ == cells.flatten()
                &&& forall|d: int, t: int|
                    0 <= d < DAY_COUNT && 0 <= t < TIMESLOT_COUNT ==> is_maximum_cell_assignment(
                        *state,
                        *constraints,
                        d,
                        t,
                        #[trigger] cells[d * TIMESLOT_COUNT + t],
                    )
            },
{
    let days = Day::all();
    let timeslots = Timeslot::all();
    let ghost mut cells: Seq<Seq<(ClassroomAssignmentKey, Classroom)>> = Seq::empty();
    let mut r: Vec<(ClassroomAssignmentKey, Classroom)> = Vec::new();
    let mut di: usize = 0;
    while di < DAY_COUNT
        invariant
            classes_known(*state, *constraints),
            days@.len() == DAY_COUNT,
            forall|i: int| 0 <= i < DAY_COUNT ==> #[trigger] days@[i].index() == i,
            timeslots@.len() == TIMESLOT_COUNT,
            forall|i: int| 0 <= i < TIMESLOT_COUNT ==> #[trigger] timeslots@[i].index() == i,
            di <= DAY_COUNT,
            cells.len() == di * TIMESLOT_COUNT,
            r@ == cells.flatten(),
            forall|d: int, t: int|
                0 <= d < di && 0 <= t < TIMESLOT_COUNT ==> is_maximum_cell_assignment(
                    *state,
                    *constraints,
                    d,
                    t,
                    #[trigger] cells[d * TIMESLOT_COUNT + t],
                ),
        decreases DAY_COUNT - di,
    {
        let mut ti: usize = 0;
        while ti < TIMESLOT_COUNT
            invariant
                classes_known(*state, *constraints),
                days@.len() == DAY_COUNT,
                forall|i: int| 0 <= i < DAY_COUNT ==> #[trigger] days@[i].index() == i,
                timeslots@.len() == TIMESLOT_COUNT,
                forall|i: int| 0 <= i < TIMESLOT_COUNT ==> #[trigger] timeslots@[i].index() == i,
                di < DAY_COUNT,
                ti <= TIMESLOT_COUNT,
                cells.len() == di * TIMESLOT_COUNT + ti,
                r@ == cells.flatten(),
                forall|d: int, t: int|
                    0 <= d < DAY_COUNT && 0 <= t < TIMESLOT_COUNT && d * TIMESLOT_COUNT + t < di
                        * TIMESLOT_COUNT + ti ==> is_maximum_cell_assignment(
                        *state,
                        *constraints,
                        d,
                        t,
                        #[trigger] cells[d * TIMESLOT_COUNT + t],
                    ),
            decreases TIMESLOT_COUNT - ti,
        {
            let part = timeslot_assign_classrooms(state, constraints, days[di], timeslots[ti]);
            let ghost old_cells = cells;
            proof {
                cells = cells.push(part@);
                old_cells.lemma_flatten_push(part@);
                assert forall|d: int, t: int|
                    0 <= d < DAY_COUNT && 0 <= t < TIMESLOT_COUNT && d * TIMESLOT_COUNT + t < di
                        * TIMESLOT_COUNT + ti + 1 implies is_maximum_cell_assignment(
                    *state,
                    *constraints,
                    d,
                    t,
                    #[trigger] cells[d * TIMESLOT_COUNT + t],
                ) by {
                    if d * TIMESLOT_COUNT + t == di * TIMESLOT_COUNT + ti {
                        assert(d == di && t == ti);
                    } else {
                        assert(cells[d * TIMESLOT_COUNT + t] == old_cells[d * TIMESLOT_COUNT + t]);
                    }
                }
            }
            let mut part = part;
            r.append(&mut part);
            ti = ti + 1;
        }
        proof {
            assert forall|d: int, t: int|
                0 <= d < di + 1 && 0 <= t < TIMESLOT_COUNT implies is_maximum_cell_assignment(
                *state,
                *constraints,
                d,
                t,
                #[trigger] cells[d * TIMESLOT_COUNT + t],
            ) by {
                assert(d * TIMESLOT_COUNT + t < di * TIMESLOT_COUNT + TIMESLOT_COUNT);
            }
        }
        di = di + 1;
    }
    proof {
        assert(forall|d: int, t: int|
            0 <= d < DAY_COUNT && 0 <= t < TIMESLOT_COUNT ==> is_maximum_cell_assignment(
                *state,
                *constraints,
                d,
                t,
                #[trigger] cells[d * TIMESLOT_COUNT + t],
            ));
    }
    r
}

/// Over the week, the most sessions that can get a room.
pub open spec fn week_capacity(state: ClassCalendar, constraints: OptimizationConstraints) -> int {
    sum_to(
        DAY_COUNT as int,
        |d: int| sum_to(TIMESLOT_COUNT as int, |t: int| cell_capacity(state, constraints, d, t)),
    )
}

/// The number of sessions that no room assignment can serve: the sessions of the
/// calendar minus, over every cell, the most sessions there that can get a room of an
/// allowed kind (a class's sessions in one cell share one room).
pub fn count_classroom_assignment_collisions(
    state: &ClassCalendar,
    constraints: &OptimizationConstraints,
) -> (r: usize)
    requires
        classes_known(*state, *constraints),
    ensures
        r == state.entries().len() - week_capacity(*state, *constraints),
        week_capacity(*state, *constraints) <= state.entries().len(),
{
    let days = Day::all();
    let timeslots = Timeslot::all();
    let ghost cap_row = |d: int| (|t: int| cell_capacity(*state, *constraints, d, t));
    let ghost cap_rows = |d: int| sum_to(TIMESLOT_COUNT as int, cap_row(d));
    let ghost ses_row = |d: int| (|t: int| slot_total(*state, d, t));
    let ghost ses_rows = |d: int| sum_to(TIMESLOT_COUNT as int, ses_row(d));
    let mut matched: u128 = 0;
    let mut di: usize = 0;
    while di < DAY_COUNT
        invariant
            classes_known(*state, *constraints),
            days@.len() == DAY_COUNT,
            forall|i: int| 0 <= i < DAY_COUNT ==> #[trigger] days@[i].index() == i,
            timeslots@.len() == TIMESLOT_COUNT,
            forall|i: int| 0 <= i < TIMESLOT_COUNT ==> #[trigger] timeslots@[i].index() == i,
            di <= DAY_COUNT,
            cap_row == (|d: int| (|t: int| cell_capacity(*state, *constraints, d, t))),
            cap_rows == (|d: int| sum_to(TIMESLOT_COUNT as int, cap_row(d))),
            ses_row == (|d: int| (|t: int| slot_total(*state, d, t))),
            ses_rows == (|d: int| sum_to(TIMESLOT_COUNT as int, ses_row(d))),
            matched == sum_to(di as int, cap_rows),
            matched <= sum_to(di as int, ses_rows),
            matched <= di * TIMESLOT_COUNT * 0x1_0000_0000_0000_0000_00,
        decreases DAY_COUNT - di,
    {
        let day = days[di];
        let mut row_matched: u128 = 0;
        let mut ti: usize = 0;
        while ti < TIMESLOT_COUNT
            invariant
                classes_known(*state, *constraints),
                timeslots@.len() == TIMESLOT_COUNT,
                forall|i: int| 0 <= i < TIMESLOT_COUNT ==> #[trigger] timeslots@[i].index() == i,
                day.index() == di,
                ti <= TIMESLOT_COUNT,
                cap_row == (|d: int| (|t: int| cell_capacity(*state, *constraints, d, t))),
                ses_row == (|d: int| (|t: int| slot_total(*state, d, t))),
                row_matched == sum_to(ti as int, cap_row(di as int)),
                row_matched <= sum_to(ti as int, ses_row(di as int)),
                row_matched <= ti * 0x1_0000_0000_0000_0000_00,
            decreases TIMESLOT_COUNT - ti,
        {
            let timeslot = timeslots[ti];
            let part = timeslot_assign_classrooms(state, constraints, day, timeslot);
            let sessions = cell_total(state, day, timeslot);
            proof {
                lemma_capacity(*state, *constraints, di as int, ti as int, part@);
            }
            assert(sum_to(ti + 1, cap_row(di as int)) == sum_to(ti as int, cap_row(di as int)) + cap_row(
                di as int,
            )(ti as int));
            assert(sum_to(ti + 1, ses_row(di as int)) == sum_to(ti as int, ses_row(di as int)) + ses_row(
                di as int,
            )(ti as int));
            row_matched = row_matched + part.len() as u128;
            ti = ti + 1;
        }
        assert(sum_to(di + 1, cap_rows) == sum_to(di as int, cap_rows) + cap_rows(di as int));
        assert(sum_to(di + 1, ses_rows) == sum_to(di as int, ses_rows) + ses_rows(di as int));
        matched = matched + row_matched;
        di = di + 1;
    }
    proof {
        state.lemma_sessions_total();
        assert(cap_rows =~= (|d: int|
            sum_to(TIMESLOT_COUNT as int, |t: int| cell_capacity(*state, *constraints, d, t))));
        assert forall|d: int| 0 <= d < DAY_COUNT implies #[trigger] ses_rows(d) == sum_to(
            TIMESLOT_COUNT as int,
            |t: int| sum_to(state.num_classes() as int, |k: int| state.count(k, d, t)),
        ) by {
            lemma_sum_ext(
                TIMESLOT_COUNT as int,
                ses_row(d),
                |t: int| sum_to(state.num_classes() as int, |k: int| state.count(k, d, t)),
            );
        }
        lemma_sum_ext(
            DAY_COUNT as int,
            ses_rows,
            |d: int|
                sum_to(
                    TIMESLOT_COUNT as int,
                    |t: int| sum_to(state.num_classes() as int, |k: int| state.count(k, d, t)),
                ),
        );
    }
    let total = state.get_entries().len();
    total - matched as usize
}

} // verus!
