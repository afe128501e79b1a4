//! The records that the report is computed from, and their mathematical views.

use vstd::prelude::*;

verus! {

/// One violation entry as it is read: where it happened and why.
#[derive(Debug, PartialEq, Eq)]
pub struct ReportDataRecord {
    pub grade: u8,
    pub class: u8,
    pub apartment: u8,
    pub dorm: u16,
    pub reason: String,
}

/// View of a [`ReportDataRecord`].
pub struct ReportDataRecordView {
    pub grade: u8,
    pub class: u8,
    pub apartment: u8,
    pub dorm: u16,
    pub reason: Seq<char>,
}

impl DeepView for ReportDataRecord {
    type V = ReportDataRecordView;

    open spec fn deep_view(&self) -> ReportDataRecordView {
        ReportDataRecordView {
            grade: self.grade,
            class: self.class,
            apartment: self.apartment,
            dorm: self.dorm,
            reason: self.reason@,
        }
    }
}

/// One row of the classroom roster: the department a classroom belongs to, if
/// any, and its homeroom teacher.
#[derive(Debug, PartialEq, Eq)]
pub struct GradeRecord {
    pub grade: u8,
    pub dept: Option<String>,
    pub class: u8,
    pub teacher: String,
}

/// View of a [`GradeRecord`]; an absent department is the empty code.
pub struct GradeRecordView {
    pub grade: u8,
    pub dept: Seq<char>,
    pub class: u8,
    pub teacher: Seq<char>,
}

impl DeepView for GradeRecord {
    type V = GradeRecordView;

    open spec fn deep_view(&self) -> GradeRecordView {
        GradeRecordView {
            grade: self.grade,
            dept: match self.dept {
                Some(code) => code@,
                None => Seq::empty(),
            },
            class: self.class,
            teacher: self.teacher@,
        }
    }
}

/// One row of the manager roster: who looks after one floor of an apartment.
#[derive(Debug, PartialEq, Eq)]
pub struct ApartmentRecord {
    pub apartment: u8,
    pub floor: u8,
    pub manager: String,
}

/// View of an [`ApartmentRecord`].
pub struct ApartmentRecordView {
    pub apartment: u8,
    pub floor: u8,
    pub manager: Seq<char>,
}

impl DeepView for ApartmentRecord {
    type V = ApartmentRecordView;

    open spec fn deep_view(&self) -> ApartmentRecordView {
        ApartmentRecordView { apartment: self.apartment, floor: self.floor, manager: self.manager@ }
    }
}

/// One row of the department roster: a department of a grade, its leader and
/// the apartment it is listed under.
#[derive(Debug, PartialEq, Eq)]
pub struct DepartmentRecord {
    pub grade: u8,
    pub dept: String,
    pub leader: String,
    pub apartment: u8,
}

/// View of a [`DepartmentRecord`].
pub struct DepartmentRecordView {
    pub grade: u8,
    pub dept: Seq<char>,
    pub leader: Seq<char>,
    pub apartment: u8,
}

impl DeepView for DepartmentRecord {
    type V = DepartmentRecordView;

    open spec fn deep_view(&self) -> DepartmentRecordView {
        DepartmentRecordView {
            grade: self.grade,
            dept: self.dept@,
            leader: self.leader@,
            apartment: self.apartment,
        }
    }
}

/// A violation entry joined with the rosters. An empty department code means
/// that the entry is grouped by its classroom number instead.
#[derive(Debug, PartialEq, Eq)]
pub struct ProcessedRecord {
    pub apartment: u8,
    pub grade: u8,
    pub class: u8,
    pub dept: String,
    pub teacher: String,
    pub manager: String,
    pub dorm: u16,
    pub reason: String,
    pub deduction: i32,
}

/// View of a [`ProcessedRecord`].
pub struct ProcessedRecordView {
    pub apartment: u8,
    pub grade: u8,
    pub class: u8,
    pub dept: Seq<char>,
    pub teacher: Seq<char>,
    pub manager: Seq<char>,
    pub dorm: u16,
    pub reason: Seq<char>,
    pub deduction: i32,
}

impl DeepView for ProcessedRecord {
    type V = ProcessedRecordView;

    open spec fn deep_view(&self) -> ProcessedRecordView {
        ProcessedRecordView {
            apartment: self.apartment,
            grade: self.grade,
            class: self.class,
            dept: self.dept@,
            teacher: self.teacher@,
            manager: self.manager@,
            dorm: self.dorm,
            reason: self.reason@,
            deduction: self.deduction,
        }
    }
}

/// The floor a dormitory is on: its number divided by one hundred.
pub open spec fn floor_of(dorm: u16) -> int {
    dorm as int / 100
}

/// The points every listed violation costs.
pub const DEDUCTION: i32 = -1;

} // verus!
