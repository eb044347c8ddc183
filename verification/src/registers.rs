//! Simple registers: entries under ids handed out in order, descriptive metadata of
//! classes and professors, and per-class session counts of one cell.
use vstd::prelude::*;
use std::collections::BTreeMap;

verus! {

/// Entries stored under ids handed out in increasing order, never reused.
pub struct Register<T> {
    unique_count: u64,
    entries: BTreeMap<u64, T>,
}

impl<T> Register<T> {
    /// The entries, by id.
    pub closed spec fn entries(self) -> Map<u64, T> {
        self.entries@
    }

    /// The id the next entry will get.
    pub closed spec fn next_id(self) -> u64 {
        self.unique_count
    }

    /// Every id in use is below the next id to hand out.
    pub closed spec fn wf(self) -> bool {
        forall|id: u64| #[trigger] self.entries@.contains_key(id) ==> id < self.unique_count
    }

    /// An empty register.
    pub fn new() -> (r: Register<T>)
        ensures
            r.wf(),
            r.entries() == Map::<u64, T>::empty(),
            r.next_id() == 0,
    {
        Register { unique_count: 0, entries: BTreeMap::new() }
    }

    /// Stores `entry` under a fresh id and returns the id.
    pub fn add_entry(&mut self, entry: T) -> (r: u64)
        requires
            old(self).wf(),
            old(self).next_id() < u64::MAX,
        ensures
            final(self).wf(),
            r == old(self).next_id(),
            !old(self).entries().contains_key(r),
            final(self).entries() == old(self).entries().insert(r, entry),
            final(self).next_id() == old(self).next_id() + 1,
    {
        broadcast use vstd::laws_cmp::group_laws_cmp, vstd::std_specs::btree::group_btree_axioms;

        let id = self.unique_count;
        self.unique_count = self.unique_count + 1;
        self.entries.insert(id, entry);
        id
    }

    /// Takes out the entry under `id`, when there is one.
    pub fn remove_entry(&mut self, id: &u64) -> (r: Option<T>)
        requires
            old(self).wf(),
        ensures
            final(self).wf(),
            final(self).entries() == old(self).entries().remove(*id),
            final(self).next_id() == old(self).next_id(),
            r is Some <==> old(self).entries().contains_key(*id),
            r matches Some(e) ==> e == old(self).entries()[*id],
    {
        broadcast use vstd::laws_cmp::group_laws_cmp, vstd::std_specs::btree::group_btree_axioms;

        self.entries.remove(id)
    }

    /// The entry under `id`, when there is one.
    pub fn get_entry(&self, id: &u64) -> (r: Option<&T>)
        ensures
            r is Some <==> self.entries().contains_key(*id),
            r matches Some(e) ==> *e == self.entries()[*id],
    {
        broadcast use vstd::laws_cmp::group_laws_cmp, vstd::std_specs::btree::group_btree_axioms;

        self.entries.get(id)
    }
}

impl<T> Default for Register<T> {
    fn default() -> (r: Register<T>)
        ensures
            r.wf(),
            r.entries() == Map::<u64, T>::empty(),
            r.next_id() == 0,
    {
        Register::new()
    }
}

/// Kind of room a class is taught in.
#[derive(Clone, Copy, Debug, PartialEq, Eq)]
pub enum ClassRoomType {
    SmallClassroom,
    BigClassroom,
    PhysicsLab,
    ChemistryLab,
}

/// Semester of the degree.
#[derive(Clone, Copy, Debug, PartialEq, Eq)]
pub enum SemesterNumber {
    S1,
    S2,
    S3,
    S4,
    S5,
    S6,
    S7,
    S8,
}

/// The position of a semester, from 0 for the first to 7 for the eighth.
pub open spec fn semester_index(s: SemesterNumber) -> int {
    match s {
        SemesterNumber::S1 => 0,
        SemesterNumber::S2 => 1,
        SemesterNumber::S3 => 2,
        SemesterNumber::S4 => 3,
        SemesterNumber::S5 => 4,
        SemesterNumber::S6 => 5,
        SemesterNumber::S7 => 6,
        SemesterNumber::S8 => 7,
    }
}

impl SemesterNumber {
    /// The position of the semester, from 0 for the first.
    pub fn index(&self) -> (r: usize)
        ensures
            r == semester_index(*self),
            r < 8,
    {
        match self {
            SemesterNumber::S1 => 0,
            SemesterNumber::S2 => 1,
            SemesterNumber::S3 => 2,
            SemesterNumber::S4 => 3,
            SemesterNumber::S5 => 4,
            SemesterNumber::S6 => 5,
            SemesterNumber::S7 => 6,
            SemesterNumber::S8 => 7,
        }
    }
}

/// What is shown of a class: its name, room kind, semester and professor.
#[derive(Clone, Debug)]
pub struct ClassMetadata {
    pub name: String,
    pub classroom_type: ClassRoomType,
    pub semester_number: SemesterNumber,
    pub professor_id: usize,
}

/// What is shown of a professor: their name.
#[derive(Clone, Debug)]
pub struct ProfessorMetadata {
    pub name: String,
}

/// The metadata of classes and professors, by position.
pub struct MetadataRegister {
    class_register: Vec<ClassMetadata>,
    professor_register: Vec<ProfessorMetadata>,
}

impl MetadataRegister {
    /// The metadata of the classes, by position.
    pub closed spec fn classes(self) -> Seq<ClassMetadata> {
        self.class_register@
    }

    /// The metadata of the professors, by position.
    pub closed spec fn professors(self) -> Seq<ProfessorMetadata> {
        self.professor_register@
    }

    /// An empty register.
    pub fn new() -> (r: MetadataRegister)
        ensures
            r.classes().len() == 0,
            r.professors().len() == 0,
    {
        MetadataRegister { class_register: Vec::new(), professor_register: Vec::new() }
    }

    /// The metadata of class `class_id`, when there is such a class.
    pub fn get_class_metadata(&self, class_id: usize) -> (r: Option<&ClassMetadata>)
        ensures
            r is Some <==> class_id < self.classes().len(),
            r matches Some(m) ==> *m == self.classes()[class_id as int],
    {
        if class_id < self.class_register.len() {
            Some(&self.class_register[class_id])
        } else {
            None
        }
    }

    /// The metadata of professor `professor_id`, when there is such a professor.
    pub fn get_professor_metadata(&self, professor_id: usize) -> (r: Option<&ProfessorMetadata>)
        ensures
            r is Some <==> professor_id < self.professors().len(),
            r matches Some(m) ==> *m == self.professors()[professor_id as int],
    {
        if professor_id < self.professor_register.len() {
            Some(&self.professor_register[professor_id])
        } else {
            None
        }
    }

    /// The metadata of class `class_id`, to be edited, when there is such a class.
    pub fn get_class_metadata_mut(&mut self, class_id: usize) -> (r: Option<&mut ClassMetadata>)
        ensures
            r is Some <==> class_id < old(self).classes().len(),
            r matches Some(m) ==> *m == old(self).classes()[class_id as int] && final(self).classes()
                == old(self).classes().update(class_id as int, *final(m)) && final(self).professors()
                == old(self).professors(),
            r is None ==> final(self).classes() == old(self).classes() && final(self).professors()
                == old(self).professors(),
    {
        if class_id < self.class_register.len() {
            Some(&mut self.class_register[class_id])
        } else {
            None
        }
    }

    /// The metadata of professor `professor_id`, to be edited, when there is such a
    /// professor.
    pub fn get_professor_metadata_mut(&mut self, professor_id: usize) -> (r: Option<
        &mut ProfessorMetadata,
    >)
        ensures
            r is Some <==> professor_id < old(self).professors().len(),
            r matches Some(m) ==> *m == old(self).professors()[professor_id as int] && final(self).professors() == old(self).professors().update(professor_id as int, *final(m)) && final(self).classes() == old(self).classes(),
            r is None ==> final(self).classes() == old(self).classes() && final(self).professors()
                == old(self).professors(),
    {
        if professor_id < self.professor_register.len() {
            Some(&mut self.professor_register[professor_id])
        } else {
            None
        }
    }

    /// Number of professors.
    pub fn professor_register_len(&self) -> (r: usize)
        ensures
            r == self.professors().len(),
    {
        self.professor_register.len()
    }

    /// Number of classes.
    pub fn class_register_len(&self) -> (r: usize)
        ensures
            r == self.classes().len(),
    {
        self.class_register.len()
    }

    /// Adds a professor and returns their position.
    pub fn add_professor(&mut self, metadata: ProfessorMetadata) -> (r: usize)
        ensures
            final(self).professors() == old(self).professors().push(metadata),
            final(self).classes() == old(self).classes(),
            r == old(self).professors().len(),
    {
        self.professor_register.push(metadata);
        self.professor_register.len() - 1
    }
}

impl Default for MetadataRegister {
    fn default() -> (r: MetadataRegister)
        ensures
            r.classes().len() == 0,
            r.professors().len() == 0,
    {
        MetadataRegister::new()
    }
}

/// Most classes a cell of the week can count.
pub const MAX_CLASSES: usize = 256;

/// Most professors a school can have.
pub const MAX_PROFESSORS: usize = 256;

/// For one cell of the week, the number of sessions of each class (by position).
#[derive(Clone, Debug)]
pub struct Classes {
    pub data: Vec<u8>,
}

impl Classes {
    /// No sessions for any of the `MAX_CLASSES` classes.
    pub fn new() -> (r: Classes)
        ensures
            r.data@.len() == MAX_CLASSES,
            forall|i: int| 0 <= i < MAX_CLASSES ==> #[trigger] r.data@[i] == 0,
    {
        let mut data: Vec<u8> = Vec::new();
        let mut i: usize = 0;
        while i < MAX_CLASSES
            invariant
                i <= MAX_CLASSES,
                data@.len() == i,
                forall|j: int| 0 <= j < i ==> #[trigger] data@[j] == 0,
            decreases MAX_CLASSES - i,
        {
            data.push(0);
            i = i + 1;
        }
        Classes { data }
    }

    /// The count of class `index`.
    pub fn index(&self, index: usize) -> (r: &u8)
        requires
            index < self.data@.len(),
        ensures
            *r == self.data@[index as int],
    {
        &self.data[index]
    }

    /// The count of class `index`, to be edited.
    pub fn index_mut(&mut self, index: usize) -> (r: &mut u8)
        requires
            index < old(self).data@.len(),
        ensures
            *r == old(self).data@[index as int],
            final(self).data@ == old(self).data@.update(index as int, *final(r)),
    {
        &mut self.data[index]
    }

    /// The counts, by class.
    pub fn into_vec(self) -> (r: Vec<u8>)
        ensures
            r@ == self.data@,
    {
        self.data
    }
}

impl Default for Classes {
    fn default() -> (r: Classes)
        ensures
            r.data@.len() == MAX_CLASSES,
            forall|i: int| 0 <= i < MAX_CLASSES ==> #[trigger] r.data@[i] == 0,
    {
        Classes::new()
    }
}

/// A statistic was logged twice in a step, or not at all.
#[derive(Debug)]
pub enum StatsTrackerError {
    MultiStatLogging(String),
    MissedStatLogging(String),
}

/// A simulation is already running.
#[derive(Debug)]
pub struct SimulationRunningError;

} // verus!
