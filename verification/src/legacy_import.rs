//! The import of a school from the legacy database tables: professors once per
//! distinct (name, RFC), available if needed from 09:00 to 17:00, and the first ten
//! classes of term "2023-2", each with a laboratory class when it names a second
//! professor.
use itertools::Itertools;
use vstd::prelude::*;

use crate::constraints::{AllowedClassroomTypes, Availability, Class, Group, Professor, ProfessorKey, Semester};
use crate::importer::{
    add_imported_class, chars_of, meta_view, parse_semester_group, semester_group_of, trim_chars, trimmed,
    ProfessorRow,
};
use crate::school_schedule::{ClassMetadata, SchoolSchedule};
use crate::week_calendar::{
    cell_index, lemma_cell_index_bijective, Day, Timeslot, DATA_LEN, DAY_COUNT, TIMESLOT_09_00, TIMESLOT_17_00,
    TIMESLOT_COUNT,
};

verus! {

/// A row of the legacy classes table: group code, class code, description, the RFCs
/// of the theory and laboratory professors (the second blank when there is no
/// laboratory) and term.
#[derive(Clone, Debug)]
pub struct MateriaRow {
    pub grupo: String,
    pub asignatura: String,
    pub descripcion: String,
    pub rfc1: String,
    pub rfc2: String,
    pub ciclo: String,
}

/// The term whose classes are imported.
pub open spec fn legacy_term() -> Seq<char> {
    "2023-2"@
}

/// The most classes rows that are imported.
pub const LEGACY_ROW_LIMIT: usize = 10;

/// A professor row as plain values: name and RFC.
pub open spec fn professor_pair(p: ProfessorRow) -> (Seq<char>, Seq<char>) {
    (p.nombre@, p.rfc@)
}

/// A (name, RFC) pair as plain values.
pub open spec fn pair_view(p: (String, String)) -> (Seq<char>, Seq<char>) {
    (p.0@, p.1@)
}

/// The elements of `s`, each once, at its first occurrence, in order.
pub open spec fn first_occurrences<A>(s: Seq<A>) -> Seq<A>
    decreases s.len(),
{
    if s.len() == 0 {
        Seq::empty()
    } else {
        let prev = first_occurrences(s.drop_last());
        if s.drop_last().contains(s.last()) {
            prev
        } else {
            prev.push(s.last())
        }
    }
}

/// `Itertools::unique` of `itertools`, collected into a `Vec`. Claimed, as its
/// documentation says: the pairs that occur, each once (two pairs being the same when
/// both strings are equal), the first occurrence kept, in the order of the input.
#[verifier::external_body]
fn unique_pairs(pairs: Vec<(String, String)>) -> (r: Vec<(String, String)>)
    ensures
        r@.map_values(|p: (String, String)| pair_view(p)) == first_occurrences(
            pairs@.map_values(|p: (String, String)| pair_view(p)),
        ),
{
    pairs.into_iter().unique().collect()
}

/// The key of the professor with RFC `rfc` among `profs`: the last one with that RFC,
/// or key 0 when none has it.
pub open spec fn legacy_professor_key(profs: Seq<(Seq<char>, Seq<char>)>, rfc: Seq<char>) -> ProfessorKey {
    if exists|j: int| 0 <= j < profs.len() && profs[j].1 == rfc {
        ProfessorKey(
            (choose|j: int|
                0 <= j < profs.len() && profs[j].1 == rfc && forall|j2: int|
                    j < j2 < profs.len() ==> profs[j2].1 != rfc) as usize,
        )
    } else {
        ProfessorKey(0)
    }
}

/// How a legacy professor is available in timeslot `t`: if needed from 09:00 until
/// 17:00, not at all otherwise.
pub open spec fn legacy_availability(t: int) -> Availability {
    if TIMESLOT_09_00 <= t < TIMESLOT_17_00 {
        Availability::AvailableIfNeeded
    } else {
        Availability::NotAvailable
    }
}

/// The class rows that are imported: the first ten of term "2023-2", in order.
pub open spec fn legacy_selected(rows: Seq<MateriaRow>) -> Seq<MateriaRow>
    decreases rows.len(),
{
    if rows.len() == 0 {
        Seq::empty()
    } else {
        let prev = legacy_selected(rows.drop_last());
        if rows.last().ciclo@ == legacy_term() && prev.len() < LEGACY_ROW_LIMIT {
            prev.push(rows.last())
        } else {
            prev
        }
    }
}

/// Only the simple classroom type.
pub open spec fn simple_rooms() -> AllowedClassroomTypes {
    AllowedClassroomTypes {
        aula_simple: true,
        aula_doble: false,
        lab_quimica: false,
        lab_fisica: false,
        aula_computo: false,
        not_assigned: false,
    }
}

/// A legacy class of professor `key` with group code `grupo`: one hour in a simple
/// classroom, not optative, in the semester and group the code gives, or the first
/// ones when it gives none.
pub open spec fn legacy_class(key: ProfessorKey, grupo: Seq<char>) -> Class {
    let (semester, group) = match semester_group_of(grupo) {
        Some(sg) => sg,
        None => (Semester::S1, Group::G1),
    };
    Class { professor_key: key, allowed_classroom_types: simple_rooms(), class_hours: 1, semester, group, optative: false }
}

/// The row names a laboratory professor: its second RFC is not blank.
pub open spec fn legacy_has_lab(row: MateriaRow) -> bool {
    trimmed(row.rfc2@).len() > 0
}

/// The classes of the imported rows, in order: each row gives a class of its first
/// professor and, when it has a laboratory, one of its second professor right after.
pub open spec fn legacy_classes(profs: Seq<(Seq<char>, Seq<char>)>, rows: Seq<MateriaRow>) -> Seq<Class>
    decreases rows.len(),
{
    if rows.len() == 0 {
        Seq::empty()
    } else {
        let prev = legacy_classes(profs, rows.drop_last());
        let row = rows.last();
        let theory = legacy_class(legacy_professor_key(profs, row.rfc1@), row.grupo@);
        if legacy_has_lab(row) {
            prev.push(theory).push(legacy_class(legacy_professor_key(profs, row.rfc2@), row.grupo@))
        } else {
            prev.push(theory)
        }
    }
}

/// The name of a row's class: its class code, a space and its description.
pub open spec fn legacy_name(row: MateriaRow) -> Seq<char> {
    row.asignatura@ + " "@ + row.descripcion@
}

/// How the classes of the imported rows are shown: the class under the row's name, the
/// laboratory class under that name followed by " (Lab)", both in light yellow with
/// code "0000".
pub open spec fn legacy_meta(rows: Seq<MateriaRow>) -> Seq<(Seq<char>, Seq<u8>, Seq<char>)>
    decreases rows.len(),
{
    if rows.len() == 0 {
        Seq::empty()
    } else {
        let prev = legacy_meta(rows.drop_last());
        let row = rows.last();
        let color = seq![255u8, 255u8, 224u8, 255u8];
        let theory = (legacy_name(row), color, "0000"@);
        let lab = (legacy_name(row) + " (Lab)"@, color, "0000"@);
        if legacy_has_lab(row) {
            prev.push(theory).push(lab)
        } else {
            prev.push(theory)
        }
    }
}

/// The week of one legacy class: its one session on Monday at 08:00.
pub open spec fn legacy_week() -> Seq<u8> {
    Seq::new(DATA_LEN as nat, |c: int| 0u8).update(cell_index(0, 0), 1u8)
}

/// A professor available if needed from 09:00 until 17:00 and not at all otherwise.
fn legacy_professor() -> (r: Professor)
    ensures
        r.availability@.len() == DATA_LEN,
        forall|d: int, t: int|
            0 <= d < DAY_COUNT && 0 <= t < TIMESLOT_COUNT ==> #[trigger] r.availability@[cell_index(d, t)]
                == legacy_availability(t),
{
    let mut p = Professor::new();
    let days = Day::all();
    let slots = Timeslot::all();
    let mut d: usize = 0;
    while d < DAY_COUNT
        invariant
            d <= DAY_COUNT,
            p.availability@.len() == DATA_LEN,
            days@.len() == DAY_COUNT,
            forall|i: int| 0 <= i < DAY_COUNT ==> #[trigger] days@[i].index() == i,
            slots@.len() == TIMESLOT_COUNT,
            forall|i: int| 0 <= i < TIMESLOT_COUNT ==> #[trigger] slots@[i].index() == i,
            forall|d2: int, t2: int|
                0 <= d2 < d && 0 <= t2 < TIMESLOT_COUNT ==> #[trigger] p.availability@[cell_index(d2, t2)]
                    == legacy_availability(t2),
        decreases DAY_COUNT - d,
    {
        let mut t: usize = 0;
        while t < TIMESLOT_COUNT
            invariant
                d < DAY_COUNT,
                t <= TIMESLOT_COUNT,
                p.availability@.len() == DATA_LEN,
                days@.len() == DAY_COUNT,
                forall|i: int| 0 <= i < DAY_COUNT ==> #[trigger] days@[i].index() == i,
                slots@.len() == TIMESLOT_COUNT,
                forall|i: int| 0 <= i < TIMESLOT_COUNT ==> #[trigger] slots@[i].index() == i,
                forall|d2: int, t2: int|
                    0 <= d2 < d && 0 <= t2 < TIMESLOT_COUNT ==> #[trigger] p.availability@[cell_index(d2, t2)]
                        == legacy_availability(t2),
                forall|t2: int| 0 <= t2 < t ==> #[trigger] p.availability@[cell_index(d as int, t2)]
                    == legacy_availability(t2),
            decreases TIMESLOT_COUNT - t,
        {
            let value = if TIMESLOT_09_00 <= t && t < TIMESLOT_17_00 {
                Availability::AvailableIfNeeded
            } else {
                Availability::NotAvailable
            };
            let ghost before = p.availability@;
            p.availability.set(days[d], slots[t], value);
            proof {
                assert(days@[d as int].index() == d);
                assert(slots@[t as int].index() == t);
                lemma_cell_index_bijective(d as int, t as int, d as int, t as int);
                assert forall|d2: int, t2: int|
                    0 <= d2 < d && 0 <= t2 < TIMESLOT_COUNT implies #[trigger] p.availability@[cell_index(d2, t2)]
                    == legacy_availability(t2) by {
                    lemma_cell_index_bijective(d2, t2, d as int, t as int);
                    assert(before[cell_index(d2, t2)] == legacy_availability(t2));
                }
                assert forall|t2: int| 0 <= t2 < t + 1 implies #[trigger] p.availability@[cell_index(d as int, t2)]
                    == legacy_availability(t2) by {
                    lemma_cell_index_bijective(d as int, t2, d as int, t as int);
                    if t2 < t {
                        assert(before[cell_index(d as int, t2)] == legacy_availability(t2));
                    }
                }
            }
            t = t + 1;
        }
        d = d + 1;
    }
    p
}

/// The key of the last professor of `profs` with RFC `rfc`, or key 0 when none has it.
fn legacy_key(profs: &Vec<(String, String)>, rfc: &String) -> (r: ProfessorKey)
    ensures
        r == legacy_professor_key(profs@.map_values(|p: (String, String)| pair_view(p)), rfc@),
{
    let ghost ps = profs@.map_values(|p: (String, String)| pair_view(p));
    let mut i: usize = profs.len();
    while i > 0
        invariant
            i <= profs@.len(),
            ps == profs@.map_values(|p: (String, String)| pair_view(p)),
            forall|j: int| i <= j < ps.len() ==> ps[j].1 != rfc@,
        decreases i,
    {
        if profs[i - 1].1 == *rfc {
            let k = i - 1;
            proof {
                assert(ps[k as int].1 == rfc@);
                let c = choose|j: int|
                    0 <= j < ps.len() && ps[j].1 == rfc@ && forall|j2: int| j < j2 < ps.len() ==> ps[j2].1 != rfc@;
                assert(0 <= k < ps.len() && ps[k as int].1 == rfc@ && forall|j2: int|
                    k < j2 < ps.len() ==> ps[j2].1 != rfc@);
                if c < k {
                    assert(ps[k as int].1 != rfc@);
                } else if c > k {
                    assert(ps[c].1 != rfc@);
                }
            }
            return ProfessorKey(k);
        }
        i = i - 1;
    }
    ProfessorKey(0)
}

/// The legacy class name: the class code, a space and the description.
fn legacy_class_name(row: &MateriaRow) -> (r: String)
    ensures
        r@ == legacy_name(*row),
{
    let mut name = row.asignatura.clone();
    name.append(" ");
    name.append(row.descripcion.as_str());
    proof {
        reveal_strlit(" ");
    }
    name
}

/// The (name, RFC) pairs of the professor rows, in order.
fn professor_pairs(professor_rows: &[ProfessorRow]) -> (r: Vec<(String, String)>)
    ensures
        r@.map_values(|p: (String, String)| pair_view(p)) == professor_rows@.map_values(
            |p: ProfessorRow| professor_pair(p),
        ),
{
    let mut r: Vec<(String, String)> = Vec::new();
    let mut i: usize = 0;
    while i < professor_rows.len()
        invariant
            i <= professor_rows@.len(),
            r@.len() == i,
            forall|j: int| 0 <= j < i ==> #[trigger] pair_view(r@[j]) == professor_pair(professor_rows@[j]),
        decreases professor_rows@.len() - i,
    {
        let row = &professor_rows[i];
        r.push((row.nombre.clone(), row.rfc.clone()));
        i = i + 1;
    }
    proof {
        assert(r@.map_values(|p: (String, String)| pair_view(p)) =~= professor_rows@.map_values(
            |p: ProfessorRow| professor_pair(p),
        ));
    }
    r
}

/// Builds a school from the rows of the legacy tables. Professors come first, one per
/// distinct (name, RFC) pair in the order of their first row, under their name and
/// available if needed from 09:00 until 17:00 only. Then each of the first ten class
/// rows of term "2023-2" gives a class of the professor with its first RFC (the last
/// such professor; key 0 when there is none), named by its class code and
/// description, and, when its second RFC is not blank, a laboratory class of the
/// professor with that RFC, named the same followed by " (Lab)". Every class has one
/// hour in a simple classroom and the semester and group of the row's group code (the
/// first ones when the code gives none).
pub fn school_from_legacy_rows(class_rows: &[MateriaRow], professor_rows: &[ProfessorRow]) -> (r: SchoolSchedule)
    ensures
        r.wf(),
        ({
            let profs = first_occurrences(professor_rows@.map_values(|p: ProfessorRow| professor_pair(p)));
            let rows = legacy_selected(class_rows@);
            &&& r.constraints().professors@.len() == profs.len()
            &&& r.professor_meta().len() == profs.len()
            &&& forall|j: int| 0 <= j < profs.len() ==> #[trigger] r.professor_meta()[j].name@ == profs[j].0
            &&& forall|j: int, d: int, t: int|
                0 <= j < profs.len() && 0 <= d < DAY_COUNT && 0 <= t < TIMESLOT_COUNT
                    ==> #[trigger] r.constraints().professors@[j].availability@[cell_index(d, t)]
                    == legacy_availability(t)
            &&& r.constraints().classes@ == legacy_classes(profs, rows)
            &&& r.class_meta().map_values(|m: ClassMetadata| meta_view(m)) == legacy_meta(rows)
            &&& r.calendar().counts() == Seq::new(r.constraints().classes@.len(), |k: int| legacy_week())
        }),
{
    let pairs = professor_pairs(professor_rows);
    let profs = unique_pairs(pairs);
    let ghost ps = profs@.map_values(|p: (String, String)| pair_view(p));
    let mut schedule = SchoolSchedule::new();
    let mut i: usize = 0;
    while i < profs.len()
        invariant
            schedule.wf(),
            ps == profs@.map_values(|p: (String, String)| pair_view(p)),
            i <= profs@.len(),
            schedule.constraints().professors@.len() == i,
            schedule.professor_meta().len() == i,
            forall|j: int| 0 <= j < i ==> #[trigger] schedule.professor_meta()[j].name@ == ps[j].0,
            forall|j: int, d: int, t: int|
                0 <= j < i && 0 <= d < DAY_COUNT && 0 <= t < TIMESLOT_COUNT
                    ==> #[trigger] schedule.constraints().professors@[j].availability@[cell_index(d, t)]
                    == legacy_availability(t),
            schedule.constraints().classes@.len() == 0,
            schedule.class_meta().len() == 0,
        decreases profs@.len() - i,
    {
        let ghost before = schedule;
        let key = schedule.add_new_professor();
        let ghost added = schedule;
        match schedule.get_professor_metadata_mut(key) {
            Some(meta) => {
                meta.name = profs[i].0.clone();
            },
            None => {},
        }
        let ghost named = schedule;
        let professor = legacy_professor();
        match schedule.get_professor_mut(key) {
            Some(p) => {
                *p = professor;
            },
            None => {},
        }
        proof {
            assert(added.professor_meta().drop_last() == before.professor_meta());
            assert(added.constraints().professors@.drop_last() == before.constraints().professors@);
            assert forall|j: int| 0 <= j < i + 1 implies #[trigger] schedule.professor_meta()[j].name@ == ps[j].0 by {
                if j < i {
                    assert(added.professor_meta()[j] == before.professor_meta()[j]);
                }
            }
            assert forall|j: int, d: int, t: int|
                0 <= j < i + 1 && 0 <= d < DAY_COUNT && 0 <= t < TIMESLOT_COUNT
                    implies #[trigger] schedule.constraints().professors@[j].availability@[cell_index(d, t)]
                    == legacy_availability(t) by {
                if j < i {
                    assert(added.constraints().professors@[j] == before.constraints().professors@[j]);
                }
            }
        }
        i = i + 1;
    }
    let term = String::from_str("2023-2");
    let code = String::from_str("0000");
    proof {
        reveal_strlit("2023-2");
        reveal_strlit("0000");
    }
    let ghost all_rows = class_rows@;
    proof {
        schedule.calendar().lemma_wf();
        assert(schedule.calendar().counts() =~= Seq::new(
            schedule.constraints().classes@.len(),
            |j: int| legacy_week(),
        ));
    }
    let mut taken: usize = 0;
    let mut k: usize = 0;
    while k < class_rows.len()
        invariant
            schedule.wf(),
            all_rows == class_rows@,
            ps == profs@.map_values(|p: (String, String)| pair_view(p)),
            term@ == legacy_term(),
            code@ == "0000"@,
            k <= class_rows@.len(),
            taken == legacy_selected(class_rows@.subrange(0, k as int)).len(),
            taken <= LEGACY_ROW_LIMIT,
            schedule.constraints().professors@.len() == ps.len(),
            schedule.professor_meta().len() == ps.len(),
            forall|j: int| 0 <= j < ps.len() ==> #[trigger] schedule.professor_meta()[j].name@ == ps[j].0,
            forall|j: int, d: int, t: int|
                0 <= j < ps.len() && 0 <= d < DAY_COUNT && 0 <= t < TIMESLOT_COUNT
                    ==> #[trigger] schedule.constraints().professors@[j].availability@[cell_index(d, t)]
                    == legacy_availability(t),
            schedule.constraints().classes@ == legacy_classes(ps, legacy_selected(class_rows@.subrange(0, k as int))),
            schedule.class_meta().map_values(|m: ClassMetadata| meta_view(m)) == legacy_meta(
                legacy_selected(class_rows@.subrange(0, k as int)),
            ),
            schedule.calendar().counts() == Seq::new(
                schedule.constraints().classes@.len(),
                |j: int| legacy_week(),
            ),
        decreases class_rows@.len() - k,
    {
        let row = &class_rows[k];
        let ghost prev_rows = legacy_selected(class_rows@.subrange(0, k as int));
        proof {
            assert(class_rows@.subrange(0, k + 1).drop_last() =~= class_rows@.subrange(0, k as int));
            assert(class_rows@.subrange(0, k + 1).last() == *row);
        }
        if row.ciclo == term && taken < LEGACY_ROW_LIMIT {
            let (semester, group) = match parse_semester_group(row.grupo.as_str()) {
                Some(x) => x,
                None => (Semester::S1, Group::G1),
            };
            let rooms = AllowedClassroomTypes {
                aula_simple: true,
                aula_doble: false,
                lab_quimica: false,
                lab_fisica: false,
                aula_computo: false,
                not_assigned: false,
            };
            let theory_key = legacy_key(&profs, &row.rfc1);
            let name = legacy_class_name(row);
            let ghost name_view = name@;
            add_imported_class(
                &mut schedule,
                theory_key,
                semester,
                group,
                false,
                1,
                rooms,
                name,
                code.clone(),
                [255, 255, 224, 255],
            );
            let rfc2 = chars_of(row.rfc2.as_str());
            let lab = trim_chars(&rfc2).len() > 0;
            if lab {
                let lab_key = legacy_key(&profs, &row.rfc2);
                let mut lab_name = legacy_class_name(row);
                lab_name.append(" (Lab)");
                add_imported_class(
                    &mut schedule,
                    lab_key,
                    semester,
                    group,
                    false,
                    1,
                    rooms,
                    lab_name,
                    code.clone(),
                    [255, 255, 224, 255],
                );
            }
            proof {
                assert(schedule.calendar().counts() =~= Seq::new(
                    schedule.constraints().classes@.len(),
                    |j: int| legacy_week(),
                ));
                let new_rows = legacy_selected(class_rows@.subrange(0, k + 1));
                assert(new_rows == prev_rows.push(*row));
                assert(new_rows.drop_last() =~= prev_rows);
                assert(new_rows.last() == *row);
                assert(legacy_has_lab(*row) == lab);
                assert([255u8, 255u8, 224u8, 255u8]@ =~= seq![255u8, 255u8, 224u8, 255u8]);
            }
            taken = taken + 1;
        } else {
            proof {
                assert(legacy_selected(class_rows@.subrange(0, k + 1)) == prev_rows);
            }
        }
        k = k + 1;
    }
    proof {
        assert(class_rows@.subrange(0, class_rows@.len() as int) =~= class_rows@);
    }
    schedule
}

} // verus!
