//! Joining violation entries with the classroom roster and the manager
//! roster.
//!
//! A lookup that finds nothing is no failure: the entry gets no department
//! and the label for an unknown teacher or manager.

use vstd::prelude::*;
use vstd::string::*;
use crate::model::{
    floor_of, ApartmentRecord, ApartmentRecordView, GradeRecord, GradeRecordView, ProcessedRecord,
    ProcessedRecordView, ReportDataRecord, ReportDataRecordView, DEDUCTION,
};

verus! {

/// The label that stands for a teacher or a manager whom no roster names.
pub open spec fn unknown_label() -> Seq<char> {
    "未知"@
}

/// The roster's row for a classroom. Where the roster lists a classroom more
/// than once, the last row counts.
pub open spec fn class_entry(grades: Seq<GradeRecordView>, grade: u8, class: u8) -> Option<
    GradeRecordView,
>
    decreases grades.len(),
{
    if grades.len() == 0 {
        None
    } else if grades.last().grade == grade && grades.last().class == class {
        Some(grades.last())
    } else {
        class_entry(grades.drop_last(), grade, class)
    }
}

/// The roster's row for a floor of an apartment. Where the roster lists a
/// floor more than once, the last row counts.
pub open spec fn floor_entry(managers: Seq<ApartmentRecordView>, apt: u8, floor: int) -> Option<
    ApartmentRecordView,
>
    decreases managers.len(),
{
    if managers.len() == 0 {
        None
    } else if managers.last().apartment == apt && managers.last().floor == floor {
        Some(managers.last())
    } else {
        floor_entry(managers.drop_last(), apt, floor)
    }
}

/// A violation entry joined with the rosters: department and teacher come
/// from the row of its classroom, the manager from the row of its floor, and
/// the deduction is one point.
pub open spec fn enriched(
    raw: ReportDataRecordView,
    grades: Seq<GradeRecordView>,
    managers: Seq<ApartmentRecordView>,
) -> ProcessedRecordView {
    let class = class_entry(grades, raw.grade, raw.class);
    let floor = floor_entry(managers, raw.apartment, floor_of(raw.dorm));
    ProcessedRecordView {
        apartment: raw.apartment,
        grade: raw.grade,
        class: raw.class,
        dept: match class {
            Some(e) => e.dept,
            None => Seq::empty(),
        },
        teacher: match class {
            Some(e) => e.teacher,
            None => unknown_label(),
        },
        manager: match floor {
            Some(e) => e.manager,
            None => unknown_label(),
        },
        dorm: raw.dorm,
        reason: raw.reason,
        deduction: -1i32,
    }
}

/// Finds the roster's row for a classroom.
pub fn find_class<'a>(grades: &'a [GradeRecord], grade: u8, class: u8) -> (found: Option<
    &'a GradeRecord,
>)
    ensures
        found.deep_view() == class_entry(grades.deep_view(), grade, class),
{
    let ghost all = grades.deep_view();
    let mut i: usize = grades.len();
    assert(all.take(i as int) =~= all);
    while i > 0
        invariant
            i <= grades.len(),
            all == grades.deep_view(),
            class_entry(all, grade, class) == class_entry(all.take(i as int), grade, class),
        decreases i,
    {
        let e = &grades[i - 1];
        proof {
            assert(all.take(i as int).drop_last() =~= all.take(i - 1));
            assert(all.take(i as int).last() == e.deep_view());
        }
        if e.grade == grade && e.class == class {
            return Some(e);
        }
        i = i - 1;
    }
    None
}

/// Finds the roster's row for a floor of an apartment.
pub fn find_floor<'a>(managers: &'a [ApartmentRecord], apt: u8, floor: u16) -> (found: Option<
    &'a ApartmentRecord,
>)
    ensures
        found.deep_view() == floor_entry(managers.deep_view(), apt, floor as int),
{
    let ghost all = managers.deep_view();
    let mut i: usize = managers.len();
    assert(all.take(i as int) =~= all);
    while i > 0
        invariant
            i <= managers.len(),
            all == managers.deep_view(),
            floor_entry(all, apt, floor as int) == floor_entry(
                all.take(i as int),
                apt,
                floor as int,
            ),
        decreases i,
    {
        let e = &managers[i - 1];
        proof {
            assert(all.take(i as int).drop_last() =~= all.take(i - 1));
            assert(all.take(i as int).last() == e.deep_view());
        }
        if e.apartment == apt && e.floor as u16 == floor {
            return Some(e);
        }
        i = i - 1;
    }
    None
}

/// Joins one violation entry with the rosters.
pub fn enrich(raw: &ReportDataRecord, grades: &[GradeRecord], managers: &[ApartmentRecord]) -> (r:
    ProcessedRecord)
    ensures
        r.deep_view() == enriched(raw.deep_view(), grades.deep_view(), managers.deep_view()),
        r.deduction == -1,
{
    let (dept, teacher) = match find_class(grades, raw.grade, raw.class) {
        Some(e) => (
            match &e.dept {
                Some(code) => code.clone(),
                None => String::new(),
            },
            e.teacher.clone(),
        ),
        None => (String::new(), String::from_str("未知")),
    };
    let manager = match find_floor(managers, raw.apartment, raw.dorm / 100) {
        Some(e) => e.manager.clone(),
        None => String::from_str("未知"),
    };
    ProcessedRecord {
        apartment: raw.apartment,
        grade: raw.grade,
        class: raw.class,
        dept,
        teacher,
        manager,
        dorm: raw.dorm,
        reason: raw.reason.clone(),
        deduction: DEDUCTION,
    }
}

/// Joins every violation entry with the rosters, in the order given.
pub fn enrich_all(raws: &[ReportDataRecord], grades: &[GradeRecord], managers: &[ApartmentRecord])
    -> (out: Vec<ProcessedRecord>)
    ensures
        out@.len() == raws@.len(),
        forall|i: int|
            0 <= i < raws@.len() ==> (#[trigger] out@[i]).deep_view() == enriched(
                raws@[i].deep_view(),
                grades.deep_view(),
                managers.deep_view(),
            ) && out@[i].deduction == -1,
{
    let mut out: Vec<ProcessedRecord> = Vec::new();
    let mut i: usize = 0;
    while i < raws.len()
        invariant
            i <= raws.len(),
            out@.len() == i,
            forall|j: int|
                0 <= j < i ==> (#[trigger] out@[j]).deep_view() == enriched(
                    raws@[j].deep_view(),
                    grades.deep_view(),
                    managers.deep_view(),
                ) && out@[j].deduction == -1,
        decreases raws.len() - i,
    {
        out.push(enrich(&raws[i], grades, managers));
        i = i + 1;
    }
    out
}

} // verus!
