//! What a timetable has to respect: the classes with their professor, semester,
//! group and allowed classroom types, and the professors with their availability.
use vstd::prelude::*;

use crate::week_calendar::{WeekCalendar, DATA_LEN};

verus! {

/// Semester of the degree a class belongs to.
#[derive(Clone, Copy, Debug, PartialEq, Eq)]
pub enum Semester {
    S1,
    S2,
    S3,
    S4,
    S5,
    S6,
    S7,
    S8,
}

/// Number of semesters.
pub const SEMESTER_COUNT: usize = 8;

/// The number of a semester, 1 to 8.
pub open spec fn semester_number(s: Semester) -> int {
    match s {
        Semester::S1 => 1,
        Semester::S2 => 2,
        Semester::S3 => 3,
        Semester::S4 => 4,
        Semester::S5 => 5,
        Semester::S6 => 6,
        Semester::S7 => 7,
        Semester::S8 => 8,
    }
}

/// The semester with number `n`, for `n` in 1 to 8.
pub open spec fn semester_of_number(n: int) -> Option<Semester> {
    if n == 1 {
        Some(Semester::S1)
    } else if n == 2 {
        Some(Semester::S2)
    } else if n == 3 {
        Some(Semester::S3)
    } else if n == 4 {
        Some(Semester::S4)
    } else if n == 5 {
        Some(Semester::S5)
    } else if n == 6 {
        Some(Semester::S6)
    } else if n == 7 {
        Some(Semester::S7)
    } else if n == 8 {
        Some(Semester::S8)
    } else {
        None
    }
}

/// Error of converting a number outside 1 to 8 into a semester.
#[derive(Debug)]
pub struct InvalidSemesterError {}

impl Semester {
    /// The semester with number `value`.
    pub fn try_from_u32(value: u32) -> (r: Result<Semester, InvalidSemesterError>)
        ensures
            r is Ok <==> 1 <= value <= 8,
            r matches Ok(s) ==> semester_of_number(value as int) == Some(s),
            r matches Ok(s) ==> semester_number(s) == value,
    {
        match value {
            1 => Ok(Semester::S1),
            2 => Ok(Semester::S2),
            3 => Ok(Semester::S3),
            4 => Ok(Semester::S4),
            5 => Ok(Semester::S5),
            6 => Ok(Semester::S6),
            7 => Ok(Semester::S7),
            8 => Ok(Semester::S8),
            _ => Err(InvalidSemesterError {}),
        }
    }

    /// The number of the semester, 1 to 8.
    pub fn to_u32(&self) -> (r: u32)
        ensures
            r == semester_number(*self),
            1 <= r <= 8,
    {
        match self {
            Semester::S1 => 1,
            Semester::S2 => 2,
            Semester::S3 => 3,
            Semester::S4 => 4,
            Semester::S5 => 5,
            Semester::S6 => 6,
            Semester::S7 => 7,
            Semester::S8 => 8,
        }
    }

    /// The position of the semester among all semesters (0 for `S1`).
    pub fn index(&self) -> (r: usize)
        ensures
            r == semester_number(*self) - 1,
            r < SEMESTER_COUNT,
    {
        match self {
            Semester::S1 => 0,
            Semester::S2 => 1,
            Semester::S3 => 2,
            Semester::S4 => 3,
            Semester::S5 => 4,
            Semester::S6 => 5,
            Semester::S7 => 6,
            Semester::S8 => 7,
        }
    }

    /// Two-digit code under which the semester is shown ("01" to "08").
    pub fn code(&self) -> (r: &'static str)
        ensures
            r@ == seq!['0', digit_char(semester_number(*self))],
    {
        match self {
            Semester::S1 => {
                proof {
                    reveal_strlit("01");
                }
                "01"
            },
            Semester::S2 => {
                proof {
                    reveal_strlit("02");
                }
                "02"
            },
            Semester::S3 => {
                proof {
                    reveal_strlit("03");
                }
                "03"
            },
            Semester::S4 => {
                proof {
                    reveal_strlit("04");
                }
                "04"
            },
            Semester::S5 => {
                proof {
                    reveal_strlit("05");
                }
                "05"
            },
            Semester::S6 => {
                proof {
                    reveal_strlit("06");
                }
                "06"
            },
            Semester::S7 => {
                proof {
                    reveal_strlit("07");
                }
                "07"
            },
            Semester::S8 => {
                proof {
                    reveal_strlit("08");
                }
                "08"
            },
        }
    }
}

impl Default for Semester {
    fn default() -> (r: Semester)
        ensures
            r == Semester::S1,
    {
        Semester::S1
    }
}

/// Every semester, in order.
pub fn all_semesters() -> (r: Vec<Semester>)
    ensures
        r@.len() == SEMESTER_COUNT,
        forall|i: int| 0 <= i < SEMESTER_COUNT ==> semester_number(#[trigger] r@[i]) == i + 1,
{
    let mut r: Vec<Semester> = Vec::new();
    r.push(Semester::S1);
    r.push(Semester::S2);
    r.push(Semester::S3);
    r.push(Semester::S4);
    r.push(Semester::S5);
    r.push(Semester::S6);
    r.push(Semester::S7);
    r.push(Semester::S8);
    r
}

/// The decimal digit character of `d`, for `d` in 0 to 9.
pub open spec fn digit_char(d: int) -> char {
    if d == 0 {
        '0'
    } else if d == 1 {
        '1'
    } else if d == 2 {
        '2'
    } else if d == 3 {
        '3'
    } else if d == 4 {
        '4'
    } else if d == 5 {
        '5'
    } else if d == 6 {
        '6'
    } else if d == 7 {
        '7'
    } else if d == 8 {
        '8'
    } else {
        '9'
    }
}

/// Group of students within a semester.
#[derive(Clone, Copy, Debug, PartialEq, Eq)]
pub enum Group {
    G1,
    G2,
    G3,
    G4,
}

/// The number of a group, 1 to 4.
pub open spec fn group_number(g: Group) -> int {
    match g {
        Group::G1 => 1,
        Group::G2 => 2,
        Group::G3 => 3,
        Group::G4 => 4,
    }
}

/// The group with number `n`, for `n` in 1 to 4.
pub open spec fn group_of_number(n: int) -> Option<Group> {
    if n == 1 {
        Some(Group::G1)
    } else if n == 2 {
        Some(Group::G2)
    } else if n == 3 {
        Some(Group::G3)
    } else if n == 4 {
        Some(Group::G4)
    } else {
        None
    }
}

/// Error of converting a number outside 1 to 4 into a group.
#[derive(Debug)]
pub struct InvalidGroupError {}

impl Group {
    /// The group with number `value`.
    pub fn try_from_u32(value: u32) -> (r: Result<Group, InvalidGroupError>)
        ensures
            r is Ok <==> 1 <= value <= 4,
            r matches Ok(g) ==> group_of_number(value as int) == Some(g),
            r matches Ok(g) ==> group_number(g) == value,
    {
        match value {
            1 => Ok(Group::G1),
            2 => Ok(Group::G2),
            3 => Ok(Group::G3),
            4 => Ok(Group::G4),
            _ => Err(InvalidGroupError {}),
        }
    }

    /// The number of the group, 1 to 4.
    pub fn to_u32(&self) -> (r: u32)
        ensures
            r == group_number(*self),
    {
        match self {
            Group::G1 => 1,
            Group::G2 => 2,
            Group::G3 => 3,
            Group::G4 => 4,
        }
    }

    /// Two-digit code under which the group is shown ("01" to "04").
    pub fn code(&self) -> (r: &'static str)
        ensures
            r@ == seq!['0', digit_char(group_number(*self))],
    {
        match self {
            Group::G1 => {
                proof {
                    reveal_strlit("01");
                }
                "01"
            },
            Group::G2 => {
                proof {
                    reveal_strlit("02");
                }
                "02"
            },
            Group::G3 => {
                proof {
                    reveal_strlit("03");
                }
                "03"
            },
            Group::G4 => {
                proof {
                    reveal_strlit("04");
                }
                "04"
            },
        }
    }
}

impl Default for Group {
    fn default() -> (r: Group)
        ensures
            r == Group::G1,
    {
        Group::G1
    }
}

/// How willing a professor is to teach in a timeslot.
#[derive(Clone, Copy, Debug, PartialEq, Eq)]
pub enum Availability {
    Available,
    AvailableIfNeeded,
    NotAvailable,
}

impl Default for Availability {
    fn default() -> (r: Availability)
        ensures
            r == Availability::AvailableIfNeeded,
    {
        Availability::AvailableIfNeeded
    }
}

/// Kind of room a class can be taught in.
#[derive(Clone, Copy, Debug, PartialEq, Eq)]
pub enum ClassroomType {
    AulaSimple,
    AulaDoble,
    LabQuimica,
    LabFisica,
    AulaComputo,
    NotAssigned,
}

/// Number of classroom types.
pub const CLASSROOM_TYPE_COUNT: usize = 6;

/// The position of a classroom type in the list of all types.
pub open spec fn classroom_type_index(t: ClassroomType) -> int {
    match t {
        ClassroomType::AulaSimple => 0,
        ClassroomType::AulaDoble => 1,
        ClassroomType::LabQuimica => 2,
        ClassroomType::LabFisica => 3,
        ClassroomType::AulaComputo => 4,
        ClassroomType::NotAssigned => 5,
    }
}

/// Every classroom type, in order.
pub fn all_classroom_types() -> (r: Vec<ClassroomType>)
    ensures
        r@.len() == CLASSROOM_TYPE_COUNT,
        forall|i: int| 0 <= i < CLASSROOM_TYPE_COUNT ==> classroom_type_index(#[trigger] r@[i]) == i,
{
    let mut r: Vec<ClassroomType> = Vec::new();
    r.push(ClassroomType::AulaSimple);
    r.push(ClassroomType::AulaDoble);
    r.push(ClassroomType::LabQuimica);
    r.push(ClassroomType::LabFisica);
    r.push(ClassroomType::AulaComputo);
    r.push(ClassroomType::NotAssigned);
    r
}

impl ClassroomType {
    /// The position of the type in the list of all types.
    pub fn index(&self) -> (r: usize)
        ensures
            r == classroom_type_index(*self),
    {
        match self {
            ClassroomType::AulaSimple => 0,
            ClassroomType::AulaDoble => 1,
            ClassroomType::LabQuimica => 2,
            ClassroomType::LabFisica => 3,
            ClassroomType::AulaComputo => 4,
            ClassroomType::NotAssigned => 5,
        }
    }
}

/// A set of classroom types.
#[derive(Clone, Copy, Debug, PartialEq, Eq)]
pub struct AllowedClassroomTypes {
    pub aula_simple: bool,
    pub aula_doble: bool,
    pub lab_quimica: bool,
    pub lab_fisica: bool,
    pub aula_computo: bool,
    pub not_assigned: bool,
}

impl AllowedClassroomTypes {
    /// `true` when `t` is in the set.
    pub open spec fn has(self, t: ClassroomType) -> bool {
        match t {
            ClassroomType::AulaSimple => self.aula_simple,
            ClassroomType::AulaDoble => self.aula_doble,
            ClassroomType::LabQuimica => self.lab_quimica,
            ClassroomType::LabFisica => self.lab_fisica,
            ClassroomType::AulaComputo => self.aula_computo,
            ClassroomType::NotAssigned => self.not_assigned,
        }
    }

    /// The empty set.
    pub fn empty() -> (r: AllowedClassroomTypes)
        ensures
            forall|t: ClassroomType| !r.has(t),
            !r.aula_simple && !r.aula_doble && !r.lab_quimica && !r.lab_fisica && !r.aula_computo
                && !r.not_assigned,
    {
        AllowedClassroomTypes {
            aula_simple: false,
            aula_doble: false,
            lab_quimica: false,
            lab_fisica: false,
            aula_computo: false,
            not_assigned: false,
        }
    }

    /// The set holding only `t`.
    pub fn only(t: ClassroomType) -> (r: AllowedClassroomTypes)
        ensures
            forall|u: ClassroomType| r.has(u) <==> u == t,
    {
        AllowedClassroomTypes::empty().with(t)
    }

    /// The set with `t` added.
    pub fn with(self, t: ClassroomType) -> (r: AllowedClassroomTypes)
        ensures
            forall|u: ClassroomType| r.has(u) <==> (self.has(u) || u == t),
    {
        let mut r = self;
        match t {
            ClassroomType::AulaSimple => r.aula_simple = true,
            ClassroomType::AulaDoble => r.aula_doble = true,
            ClassroomType::LabQuimica => r.lab_quimica = true,
            ClassroomType::LabFisica => r.lab_fisica = true,
            ClassroomType::AulaComputo => r.aula_computo = true,
            ClassroomType::NotAssigned => r.not_assigned = true,
        }
        r
    }

    /// `true` when `t` is in the set.
    pub fn contains(&self, t: ClassroomType) -> (r: bool)
        ensures
            r == self.has(t),
    {
        match t {
            ClassroomType::AulaSimple => self.aula_simple,
            ClassroomType::AulaDoble => self.aula_doble,
            ClassroomType::LabQuimica => self.lab_quimica,
            ClassroomType::LabFisica => self.lab_fisica,
            ClassroomType::AulaComputo => self.aula_computo,
            ClassroomType::NotAssigned => self.not_assigned,
        }
    }

    /// `true` when the set holds a laboratory (chemistry or physics).
    pub fn has_lab(&self) -> (r: bool)
        ensures
            r == (self.has(ClassroomType::LabFisica) || self.has(ClassroomType::LabQuimica)),
    {
        self.lab_fisica || self.lab_quimica
    }

    /// The types in the set, in the order of `all_classroom_types`.
    pub fn to_vec(&self) -> (r: Vec<ClassroomType>)
        ensures
            forall|t: ClassroomType| self.has(t) <==> r@.contains(t),
            forall|i: int, j: int|
                0 <= i < j < r@.len() ==> classroom_type_index(r@[i]) < classroom_type_index(
                    r@[j],
                ),
    {
        let all = all_classroom_types();
        let mut r: Vec<ClassroomType> = Vec::new();
        let mut i: usize = 0;
        while i < CLASSROOM_TYPE_COUNT
            invariant
                i <= CLASSROOM_TYPE_COUNT,
                all@.len() == CLASSROOM_TYPE_COUNT,
                forall|k: int| 0 <= k < CLASSROOM_TYPE_COUNT ==> classroom_type_index(#[trigger] all@[k]) == k,
                forall|t: ClassroomType|
                    r@.contains(t) <==> (self.has(t) && classroom_type_index(t) < i),
                forall|a: int, b: int|
                    0 <= a < b < r@.len() ==> classroom_type_index(r@[a]) < classroom_type_index(
                        r@[b],
                    ),
                forall|a: int| 0 <= a < r@.len() ==> classroom_type_index(#[trigger] r@[a]) < i,
            decreases CLASSROOM_TYPE_COUNT - i,
        {
            let t = all[i];
            if self.contains(t) {
                let ghost old_r = r@;
                r.push(t);
                proof {
                    assert forall|u: ClassroomType|
                        r@.contains(u) <==> (self.has(u) && classroom_type_index(u) < i + 1) by {
                        if r@.contains(u) {
                            let k = choose|k: int| 0 <= k < r@.len() && r@[k] == u;
                            if k < old_r.len() {
                                assert(old_r[k] == u);
                            }
                        }
                        if self.has(u) && classroom_type_index(u) < i + 1 {
                            if classroom_type_index(u) < i {
                                assert(old_r.contains(u));
                                let k = choose|k: int| 0 <= k < old_r.len() && old_r[k] == u;
                                assert(r@[k] == u);
                            } else {
                                assert(r@[old_r.len() as int] == u);
                            }
                        }
                    }
                }
            } else {
                proof {
                    assert forall|u: ClassroomType|
                        r@.contains(u) <==> (self.has(u) && classroom_type_index(u) < i + 1) by {
                        if classroom_type_index(u) == i {
                            if r@.contains(u) {
                                let k = choose|k: int| 0 <= k < r@.len() && r@[k] == u;
                            }
                        }
                    }
                }
            }
            i = i + 1;
        }
        r
    }
}

/// A room of the school.
#[derive(Clone, Copy, Debug, PartialEq, Eq)]
pub enum Classroom {
    Aula1,
    Aula2_3,
    Aula4,
    Aula5_6,
    SalaSeminarios,
    SalaComputo,
    LabFisica,
    LabQuimica,
    NotAssigned,
}

/// Number of classrooms.
pub const CLASSROOM_COUNT: usize = 9;

/// The position of a classroom in the list of all classrooms.
pub open spec fn classroom_index(c: Classroom) -> int {
    match c {
        Classroom::Aula1 => 0,
        Classroom::Aula2_3 => 1,
        Classroom::Aula4 => 2,
        Classroom::Aula5_6 => 3,
        Classroom::SalaSeminarios => 4,
        Classroom::SalaComputo => 5,
        Classroom::LabFisica => 6,
        Classroom::LabQuimica => 7,
        Classroom::NotAssigned => 8,
    }
}

/// The kind of each room.
pub open spec fn classroom_type_of(c: Classroom) -> ClassroomType {
    match c {
        Classroom::Aula1 => ClassroomType::AulaSimple,
        Classroom::Aula2_3 => ClassroomType::AulaDoble,
        Classroom::Aula4 => ClassroomType::AulaSimple,
        Classroom::Aula5_6 => ClassroomType::AulaDoble,
        Classroom::SalaSeminarios => ClassroomType::AulaDoble,
        Classroom::SalaComputo => ClassroomType::AulaComputo,
        Classroom::LabFisica => ClassroomType::LabFisica,
        Classroom::LabQuimica => ClassroomType::LabQuimica,
        Classroom::NotAssigned => ClassroomType::NotAssigned,
    }
}

/// Every classroom, in order.
pub fn all_classrooms() -> (r: Vec<Classroom>)
    ensures
        r@.len() == CLASSROOM_COUNT,
        forall|i: int| 0 <= i < CLASSROOM_COUNT ==> classroom_index(#[trigger] r@[i]) == i,
{
    let mut r: Vec<Classroom> = Vec::new();
    r.push(Classroom::Aula1);
    r.push(Classroom::Aula2_3);
    r.push(Classroom::Aula4);
    r.push(Classroom::Aula5_6);
    r.push(Classroom::SalaSeminarios);
    r.push(Classroom::SalaComputo);
    r.push(Classroom::LabFisica);
    r.push(Classroom::LabQuimica);
    r.push(Classroom::NotAssigned);
    r
}

/// How a room is called.
pub open spec fn classroom_name(c: Classroom) -> Seq<char> {
    match c {
        Classroom::Aula1 => "Aula 1"@,
        Classroom::Aula2_3 => "Aula 2-3"@,
        Classroom::Aula4 => "Aula 4"@,
        Classroom::Aula5_6 => "Aula 5-6"@,
        Classroom::SalaSeminarios => "Sala de Seminarios"@,
        Classroom::SalaComputo => "Sala de Computo"@,
        Classroom::LabFisica => "Lab de Fisica"@,
        Classroom::LabQuimica => "Lab de Quimica"@,
        Classroom::NotAssigned => "No asignado"@,
    }
}

/// How a kind of room is called.
pub open spec fn classroom_type_name(t: ClassroomType) -> Seq<char> {
    match t {
        ClassroomType::AulaSimple => "Aula Simple"@,
        ClassroomType::AulaDoble => "Aula Doble"@,
        ClassroomType::LabQuimica => "Lab Quimica"@,
        ClassroomType::LabFisica => "Lab Fisica"@,
        ClassroomType::AulaComputo => "Aula Computo"@,
        ClassroomType::NotAssigned => "No asginado"@,
    }
}

impl ClassroomType {
    /// The name of the kind of room.
    pub fn name(&self) -> (r: &'static str)
        ensures
            r@ == classroom_type_name(*self),
    {
        match self {
            ClassroomType::AulaSimple => "Aula Simple",
            ClassroomType::AulaDoble => "Aula Doble",
            ClassroomType::LabQuimica => "Lab Quimica",
            ClassroomType::LabFisica => "Lab Fisica",
            ClassroomType::AulaComputo => "Aula Computo",
            ClassroomType::NotAssigned => "No asginado",
        }
    }
}

impl Classroom {
    /// The name of the room.
    pub fn name(&self) -> (r: &'static str)
        ensures
            r@ == classroom_name(*self),
    {
        match self {
            Classroom::Aula1 => "Aula 1",
            Classroom::Aula2_3 => "Aula 2-3",
            Classroom::Aula4 => "Aula 4",
            Classroom::Aula5_6 => "Aula 5-6",
            Classroom::SalaSeminarios => "Sala de Seminarios",
            Classroom::SalaComputo => "Sala de Computo",
            Classroom::LabFisica => "Lab de Fisica",
            Classroom::LabQuimica => "Lab de Quimica",
            Classroom::NotAssigned => "No asignado",
        }
    }

    /// The kind of the room.
    pub fn get_type(&self) -> (r: ClassroomType)
        ensures
            r == classroom_type_of(*self),
    {
        match self {
            Classroom::Aula1 => ClassroomType::AulaSimple,
            Classroom::Aula2_3 => ClassroomType::AulaDoble,
            Classroom::Aula4 => ClassroomType::AulaSimple,
            Classroom::Aula5_6 => ClassroomType::AulaDoble,
            Classroom::SalaSeminarios => ClassroomType::AulaDoble,
            Classroom::SalaComputo => ClassroomType::AulaComputo,
            Classroom::LabFisica => ClassroomType::LabFisica,
            Classroom::LabQuimica => ClassroomType::LabQuimica,
            Classroom::NotAssigned => ClassroomType::NotAssigned,
        }
    }

    /// The position of the room in the list of all rooms.
    pub fn index(&self) -> (r: usize)
        ensures
            r == classroom_index(*self),
    {
        match self {
            Classroom::Aula1 => 0,
            Classroom::Aula2_3 => 1,
            Classroom::Aula4 => 2,
            Classroom::Aula5_6 => 3,
            Classroom::SalaSeminarios => 4,
            Classroom::SalaComputo => 5,
            Classroom::LabFisica => 6,
            Classroom::LabQuimica => 7,
            Classroom::NotAssigned => 8,
        }
    }
}

/// Key of a professor: its position in the list of professors.
#[derive(Clone, Copy, Debug, PartialEq, Eq, Hash, PartialOrd, Ord)]
pub struct ProfessorKey(pub usize);

/// Key of a class: its position in the list of classes.
#[derive(Clone, Copy, Debug, PartialEq, Eq, Hash, PartialOrd, Ord)]
pub struct ClassKey(pub usize);

/// A class to be scheduled.
#[derive(Clone, Copy, Debug)]
pub struct Class {
    pub professor_key: ProfessorKey,
    pub allowed_classroom_types: AllowedClassroomTypes,
    pub class_hours: u8,
    pub semester: Semester,
    pub group: Group,
    pub optative: bool,
}

/// A class of professor `professor_key` with no hours, no allowed classroom type, in
/// the first semester and group, not optative.
pub open spec fn class_of_professor(professor_key: ProfessorKey) -> Class {
    Class {
        professor_key,
        allowed_classroom_types: AllowedClassroomTypes {
            aula_simple: false,
            aula_doble: false,
            lab_quimica: false,
            lab_fisica: false,
            aula_computo: false,
            not_assigned: false,
        },
        class_hours: 0,
        semester: Semester::S1,
        group: Group::G1,
        optative: false,
    }
}

impl Class {
    /// A class of professor `professor_key` with no hours, no allowed classroom type,
    /// in the first semester and group.
    pub fn new(professor_key: ProfessorKey) -> (r: Class)
        ensures
            r == class_of_professor(professor_key),
            r.professor_key == professor_key,
            r.class_hours == 0,
            forall|t: ClassroomType| !r.allowed_classroom_types.has(t),
            r.semester == Semester::S1,
            r.group == Group::G1,
            !r.optative,
    {
        Class {
            professor_key,
            allowed_classroom_types: AllowedClassroomTypes::empty(),
            class_hours: 0,
            semester: Semester::S1,
            group: Group::G1,
            optative: false,
        }
    }
}

/// A professor and when they can teach.
#[derive(Clone, Debug)]
pub struct Professor {
    pub availability: WeekCalendar<Availability>,
}

impl Professor {
    /// A professor available if needed in every timeslot.
    pub fn new() -> (r: Professor)
        ensures
            r.availability@.len() == DATA_LEN,
            forall|i: int|
                0 <= i < DATA_LEN ==> #[trigger] r.availability@[i]
                    == Availability::AvailableIfNeeded,
    {
        Professor { availability: WeekCalendar::filled(Availability::AvailableIfNeeded) }
    }
}

/// The classes and professors of a school.
#[derive(Clone, Debug)]
pub struct OptimizationConstraints {
    pub classes: Vec<Class>,
    pub professors: Vec<Professor>,
}

impl OptimizationConstraints {
    /// No classes and no professors.
    pub fn new() -> (r: OptimizationConstraints)
        ensures
            r.classes@.len() == 0,
            r.professors@.len() == 0,
    {
        OptimizationConstraints { classes: Vec::new(), professors: Vec::new() }
    }

    /// The class with key `class_key`, when there is one.
    pub fn get_class(&self, class_key: ClassKey) -> (r: Option<&Class>)
        ensures
            r is Some <==> class_key.0 < self.classes@.len(),
            r matches Some(c) ==> *c == self.classes@[class_key.0 as int],
    {
        if class_key.0 < self.classes.len() {
            Some(&self.classes[class_key.0])
        } else {
            None
        }
    }
}

impl Default for OptimizationConstraints {
    fn default() -> (r: OptimizationConstraints)
        ensures
            r.classes@.len() == 0,
            r.professors@.len() == 0,
    {
        OptimizationConstraints::new()
    }
}

} // verus!
