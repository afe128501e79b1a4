//! Groups of records: who belongs to a group, what a group totals, and the
//! order in which a group's records are shown.

use vstd::prelude::*;
use crate::model::{ProcessedRecord, ProcessedRecordView};
use crate::order::{arrange, lemma_stable_order, pick, sort_positions, stable_order};

verus! {

/// A group of one of the two hierarchies: a department of a grade, a bare
/// classroom, or a dormitory manager.
pub enum GroupKey<'a> {
    Department { grade: u8, dept: &'a String },
    Classroom { class: u8 },
    Manager { name: &'a String },
}

/// View of a [`GroupKey`].
pub enum GroupView {
    Department { grade: u8, dept: Seq<char> },
    Classroom { class: u8 },
    Manager { name: Seq<char> },
}

impl<'a> DeepView for GroupKey<'a> {
    type V = GroupView;

    open spec fn deep_view(&self) -> GroupView {
        match *self {
            GroupKey::Department { grade, dept } => GroupView::Department { grade, dept: dept@ },
            GroupKey::Classroom { class } => GroupView::Classroom { class },
            GroupKey::Manager { name } => GroupView::Manager { name: name@ },
        }
    }
}

/// Whether a record belongs to a group. A record with a department code
/// belongs to that department of its grade and to no classroom group; a
/// record without one belongs to the group of its classroom number only.
pub open spec fn belongs(r: ProcessedRecordView, g: GroupView) -> bool {
    match g {
        GroupView::Department { grade, dept } => r.dept.len() > 0 && r.grade == grade && r.dept
            == dept,
        GroupView::Classroom { class } => r.dept.len() == 0 && r.class == class,
        GroupView::Manager { name } => r.manager == name,
    }
}

/// Whether a record lies in a scope: one apartment, or all of them.
pub open spec fn in_scope(r: ProcessedRecordView, apt: Option<u8>) -> bool {
    match apt {
        Some(a) => r.apartment == a,
        None => true,
    }
}

/// The test that picks the records of group `g` within scope `apt`.
pub open spec fn selects(apt: Option<u8>, g: GroupView) -> spec_fn(ProcessedRecordView) -> bool {
    |r: ProcessedRecordView| in_scope(r, apt) && belongs(r, g)
}

/// The records of group `g` within scope `apt`, in the order of the input.
pub open spec fn members(data: Seq<ProcessedRecordView>, apt: Option<u8>, g: GroupView) -> Seq<
    ProcessedRecordView,
> {
    data.filter(selects(apt, g))
}

/// The sum of the deductions of some records.
pub open spec fn total(records: Seq<ProcessedRecordView>) -> int
    decreases records.len(),
{
    if records.len() == 0 {
        0
    } else {
        total(records.drop_last()) + records.last().deduction
    }
}

/// Records in ascending order of dormitory number, records of one dormitory
/// in the order given.
pub open spec fn by_dorm(records: Seq<ProcessedRecordView>) -> Seq<ProcessedRecordView> {
    arrange(records, stable_order(records.map_values(|r: ProcessedRecordView| r.dorm as int)))
}

/// The number of rows that a group which always shows takes: one per
/// record, and one placeholder row where it has none.
pub open spec fn group_height(records: Seq<ProcessedRecordView>) -> int {
    if records.len() == 0 {
        1
    } else {
        records.len() as int
    }
}

/// A total is bounded by the number of records it sums over.
pub proof fn lemma_total_bounds(records: Seq<ProcessedRecordView>)
    ensures
        -0x8000_0000 * records.len() <= total(records) <= 0x8000_0000 * records.len(),
    decreases records.len(),
{
    if records.len() > 0 {
        lemma_total_bounds(records.drop_last());
    }
}

/// Where no record gains points, no total is above zero; and the total of no
/// records is zero.
pub proof fn lemma_total_not_positive(records: Seq<ProcessedRecordView>)
    requires
        forall|i: int| 0 <= i < records.len() ==> (#[trigger] records[i]).deduction <= 0,
    ensures
        total(records) <= 0,
        records.len() == 0 ==> total(records) == 0,
    decreases records.len(),
{
    if records.len() > 0 {
        let rest = records.drop_last();
        assert forall|i: int| 0 <= i < rest.len() implies (#[trigger] rest[i]).deduction <= 0 by {
            assert(rest[i] == records[i]);
        }
        lemma_total_not_positive(rest);
        assert(records[records.len() - 1].deduction <= 0);
    }
}

/// The members of a group are records of the input.
pub proof fn lemma_members_are_records(
    data: Seq<ProcessedRecordView>,
    apt: Option<u8>,
    g: GroupView,
    j: int,
)
    requires
        0 <= j < members(data, apt, g).len(),
    ensures
        data.contains(members(data, apt, g)[j]),
        in_scope(members(data, apt, g)[j], apt),
        belongs(members(data, apt, g)[j], g),
{
    let pick = selects(apt, g);
    let found = data.filter(pick);
    data.lemma_filter_pred(pick, j);
    assert(found.contains(found[j]));
    data.lemma_filter_contains_rev(pick, found[j]);
}

/// A group within a scope is empty exactly where no record of the scope
/// belongs to it.
pub proof fn lemma_members_empty(data: Seq<ProcessedRecordView>, apt: Option<u8>, g: GroupView)
    ensures
        members(data, apt, g).len() == 0 <==> forall|i: int|
            0 <= i < data.len() ==> !(in_scope(#[trigger] data[i], apt) && belongs(data[i], g)),
{
    let pick = selects(apt, g);
    let found = data.filter(pick);
    if found.len() > 0 {
        data.lemma_filter_pred(pick, 0);
        assert(found.contains(found[0]));
        data.lemma_filter_contains_rev(pick, found[0]);
        let i = choose|i: int| 0 <= i < data.len() && data[i] == found[0];
        assert(in_scope(data[i], apt) && belongs(data[i], g));
    }
    if exists|i: int| 0 <= i < data.len() && in_scope(#[trigger] data[i], apt) && belongs(data[i], g) {
        let i = choose|i: int|
            0 <= i < data.len() && in_scope(#[trigger] data[i], apt) && belongs(data[i], g);
        assert(pick(data[i]));
        data.lemma_filter_contains(pick, i);
    }
}

/// Every record belongs to exactly one group of the department table: to
/// the department that it names, or, where it names none, to its classroom.
pub proof fn lemma_one_group_per_record(r: ProcessedRecordView, g: GroupView)
    ensures
        g is Department ==> (belongs(r, g) <==> r.dept.len() > 0 && g == GroupView::Department {
            grade: r.grade,
            dept: r.dept,
        }),
        g is Classroom ==> (belongs(r, g) <==> r.dept.len() == 0 && g == GroupView::Classroom {
            class: r.class,
        }),
{
}

/// The total of a group over both apartments is the sum of its totals in
/// apartment 1 and in apartment 2, where all its records lie in these two.
pub proof fn lemma_total_over_both_apartments(data: Seq<ProcessedRecordView>, g: GroupView)
    requires
        forall|i: int|
            0 <= i < data.len() && belongs(#[trigger] data[i], g) ==> data[i].apartment == 1
                || data[i].apartment == 2,
    ensures
        total(members(data, None, g)) == total(members(data, Some(1u8), g)) + total(
            members(data, Some(2u8), g),
        ),
    decreases data.len(),
{
    reveal(Seq::filter);
    if data.len() > 0 {
        let rest = data.drop_last();
        assert forall|i: int| 0 <= i < rest.len() && belongs(#[trigger] rest[i], g) implies rest[i].apartment
            == 1 || rest[i].apartment == 2 by {
            assert(rest[i] == data[i]);
        }
        lemma_total_over_both_apartments(rest, g);
        let r = data.last();
        assert(r == data[data.len() - 1]);
        if belongs(r, g) {
            assert(members(data, None, g).drop_last() =~= members(rest, None, g));
            if r.apartment == 1 {
                assert(members(data, Some(1u8), g).drop_last() =~= members(rest, Some(1u8), g));
            } else {
                assert(members(data, Some(2u8), g).drop_last() =~= members(rest, Some(2u8), g));
            }
        }
    }
}

/// Records by dormitory are the records given, each once, with dormitory
/// numbers that never descend.
pub proof fn lemma_by_dorm(records: Seq<ProcessedRecordView>)
    ensures
        by_dorm(records).len() == records.len(),
        forall|a: int, b: int|
            0 <= a <= b < records.len() ==> (#[trigger] by_dorm(records)[a]).dorm <= (
            #[trigger] by_dorm(records)[b]).dorm,
        forall|i: int| 0 <= i < records.len() ==> by_dorm(records).contains(#[trigger] records[i]),
{
    let dorms = records.map_values(|r: ProcessedRecordView| r.dorm as int);
    let order = stable_order(dorms);
    lemma_stable_order(dorms);
    let sorted = by_dorm(records);
    assert forall|a: int, b: int| 0 <= a <= b < records.len() implies (#[trigger] sorted[a]).dorm <= (
    #[trigger] sorted[b]).dorm by {
        if a < b {
            assert(dorms[order[a]] < dorms[order[b]] || (dorms[order[a]] == dorms[order[b]]
                && order[a] < order[b]));
        }
    }
    assert forall|i: int| 0 <= i < records.len() implies sorted.contains(#[trigger] records[i]) by {
        assert(order.contains(i));
        let j = choose|j: int| 0 <= j < order.len() && order[j] == i;
        assert(sorted[j] == records[i]);
    }
}

impl<'a> GroupKey<'a> {
    /// Whether record `r` belongs to this group.
    pub fn holds(&self, r: &ProcessedRecord) -> (yes: bool)
        ensures
            yes == belongs(r.deep_view(), self.deep_view()),
    {
        match self {
            GroupKey::Department { grade, dept } => !r.dept.as_str().is_empty() && r.grade == *grade
                && r.dept == **dept,
            GroupKey::Classroom { class } => r.dept.as_str().is_empty() && r.class == *class,
            GroupKey::Manager { name } => r.manager == **name,
        }
    }
}

/// Picks the records of a group within a scope.
pub fn select<'a>(data: &'a [ProcessedRecord], apt: Option<u8>, key: &GroupKey) -> (out: Vec<
    &'a ProcessedRecord,
>)
    ensures
        out.deep_view() == members(data.deep_view(), apt, key.deep_view()),
        out@.len() <= data@.len(),
{
    let ghost all = data.deep_view();
    let ghost pick = selects(apt, key.deep_view());
    let mut out: Vec<&'a ProcessedRecord> = Vec::new();
    let mut i: usize = 0;
    assert(out.deep_view() =~= all.take(0).filter(pick)) by {
        reveal(Seq::filter);
    }
    while i < data.len()
        invariant
            i <= data.len(),
            all == data.deep_view(),
            pick == selects(apt, key.deep_view()),
            out.deep_view() == all.take(i as int).filter(pick),
            out@.len() <= i,
        decreases data.len() - i,
    {
        let r = &data[i];
        let inside = match apt {
            Some(a) => r.apartment == a,
            None => true,
        };
        let ghost before = out.deep_view();
        proof {
            reveal(Seq::filter);
            assert(all.take(i + 1).drop_last() =~= all.take(i as int));
            assert(all.take(i + 1).last() == r.deep_view());
        }
        if inside && key.holds(r) {
            out.push(r);
            assert(out.deep_view() =~= before.push(r.deep_view()));
        }
        i = i + 1;
    }
    assert(all.take(i as int) =~= all);
    out
}

/// Sums the deductions of some records.
pub fn total_of(records: &Vec<&ProcessedRecord>) -> (sum: i64)
    requires
        records@.len() <= u32::MAX,
    ensures
        sum == total(records.deep_view()),
{
    let ghost all = records.deep_view();
    let mut sum: i64 = 0;
    let mut i: usize = 0;
    while i < records.len()
        invariant
            i <= records.len(),
            records@.len() <= u32::MAX,
            all == records.deep_view(),
            sum == total(all.take(i as int)),
        decreases records.len() - i,
    {
        proof {
            assert(all.take(i + 1).drop_last() =~= all.take(i as int));
            lemma_total_bounds(all.take(i as int));
        }
        sum = sum + records[i].deduction as i64;
        i = i + 1;
    }
    assert(all.take(i as int) =~= all);
    sum
}

/// Puts records in ascending order of dormitory number, keeping the order
/// given among records of one dormitory.
pub fn sort_by_dorm<'a>(records: &Vec<&'a ProcessedRecord>) -> (out: Vec<&'a ProcessedRecord>)
    ensures
        out.deep_view() == by_dorm(records.deep_view()),
        out@.len() == records@.len(),
{
    let ghost all = records.deep_view();
    let ghost dorms = all.map_values(|r: ProcessedRecordView| r.dorm as int);
    let mut keys: Vec<i64> = Vec::new();
    let mut i: usize = 0;
    while i < records.len()
        invariant
            i <= records.len(),
            all == records.deep_view(),
            dorms == all.map_values(|r: ProcessedRecordView| r.dorm as int),
            keys@.map_values(|k: i64| k as int) == dorms.take(i as int),
        decreases records.len() - i,
    {
        let ghost before = keys@.map_values(|k: i64| k as int);
        keys.push(records[i].dorm as i64);
        assert(keys@.map_values(|k: i64| k as int) =~= before.push(dorms[i as int]));
        assert(dorms.take(i + 1) =~= dorms.take(i as int).push(dorms[i as int]));
        i = i + 1;
    }
    assert(dorms.take(i as int) =~= dorms);
    let order = sort_positions(&keys);
    pick(records, &order)
}

} // verus!
