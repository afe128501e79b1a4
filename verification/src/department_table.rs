//! The department table: records grouped by apartment, then by department
//! or, where a record has no department, by classroom.
//!
//! Departments rank by their totals over all apartments, classrooms by their
//! totals within the apartment. A department of the roster is shown even
//! without records; a classroom is shown only where it has some.

use vstd::prelude::*;
use vstd::string::*;
use crate::department::{
    add_key, brings_key, brought, department, department_entry, department_keys, dual_in_both,
    find_department, is_dual, is_home, is_listed, leader_of, lemma_department_keys,
    lemma_roster_department, on_roster, record_key, roster_key, seeded_in, seeded_keys, Apt2AState,
    DeptKey, DeptKeyView,
};
use crate::group::{
    belongs, by_dorm, group_height, in_scope, lemma_members_are_records, lemma_members_empty,
    lemma_total_not_positive, lemma_total_over_both_apartments, members, select, sort_by_dorm,
    total, total_of, GroupKey, GroupView,
};
use crate::model::{DepartmentRecord, DepartmentRecordView, ProcessedRecord, ProcessedRecordView};
use crate::rank::{dense_rank, lemma_rank_bounds, RankScale};
use crate::sheet::{
    advance, merge_or_write_num, merge_or_write_str, merged, number_cell, put_merge, put_number,
    put_text, span_number, span_text, text_cell, Instruction, InstructionView, LayoutError, Style,
    Table,
};
use crate::text::{
    apt_display_name, apt_label, class_display, class_label, decimal, decimal_string, dept_display,
    dept_label, dorm_display, dorm_label, is_code_a,
};

verus! {

/// The cells of one record's row: teacher, manager, dormitory, reason and
/// deduction.
pub open spec fn dorm_row(row: int, r: ProcessedRecordView) -> Seq<InstructionView> {
    seq![
        text_cell(row, 2, r.teacher, Style::Cell),
        text_cell(row, 3, r.manager, Style::Cell),
        text_cell(row, 4, dorm_label(r.dorm), Style::Cell),
        text_cell(row, 5, r.reason, Style::Cell),
        number_cell(row, 6, r.deduction as int, Style::Cell),
    ]
}

/// The rows of some records, one below the other from `row` on.
pub open spec fn dorm_rows(row: int, records: Seq<ProcessedRecordView>) -> Seq<InstructionView>
    decreases records.len(),
{
    if records.len() == 0 {
        Seq::empty()
    } else {
        dorm_rows(row, records.drop_last()) + dorm_row(
            row + records.len() - 1,
            records.last(),
        )
    }
}

/// The row of a department without records: its label, fillers, its rank.
pub open spec fn placeholder_row(row: int, label: Seq<char>, rank: int) -> Seq<InstructionView> {
    seq![
        text_cell(row, 1, label, Style::Cell),
        text_cell(row, 2, "/"@, Style::Cell),
        text_cell(row, 3, "/"@, Style::Cell),
        text_cell(row, 4, "/"@, Style::Cell),
        text_cell(row, 5, "/"@, Style::Cell),
        text_cell(row, 6, "/"@, Style::Cell),
        text_cell(row, 7, "/"@, Style::Cell),
        number_cell(row, 8, rank, Style::Cell),
    ]
}

/// Label, total and rank of a group, each shown once for all of its rows.
pub open spec fn group_summary(first: int, last: int, label: Seq<char>, sum: int, rank: int)
    -> Seq<InstructionView> {
    seq![
        span_text(first, last, 1, label, Style::Cell),
        span_text(first, last, 7, decimal(sum), Style::Cell),
        span_number(first, last, 8, rank, Style::Cell),
    ]
}

/// The instructions of a department group from `row` on. A group without
/// records is a placeholder row. Otherwise its records follow by dormitory;
/// label, total and rank are shown once for them, unless they are `deferred`
/// to be merged across apartments later.
pub open spec fn dept_group(
    row: int,
    label: Seq<char>,
    records: Seq<ProcessedRecordView>,
    rank: int,
    deferred: bool,
) -> Seq<InstructionView> {
    if records.len() == 0 {
        placeholder_row(row, label, rank)
    } else if deferred {
        dorm_rows(row, by_dorm(records))
    } else {
        dorm_rows(row, by_dorm(records)) + group_summary(
            row,
            row + records.len() - 1,
            label,
            total(records),
            rank,
        )
    }
}

/// The instructions of a classroom group from `row` on: nothing at all for a
/// classroom without records.
pub open spec fn class_group(row: int, class: u8, records: Seq<ProcessedRecordView>, rank: int)
    -> Seq<InstructionView> {
    if records.len() == 0 {
        Seq::empty()
    } else {
        dorm_rows(row, by_dorm(records)) + group_summary(
            row,
            row + records.len() - 1,
            class_label(class),
            total(records),
            rank,
        )
    }
}

/// The rows between which the shared cells of the dual-apartment department
/// are merged at the end: the first row of its first group and the last row
/// of its last group that has records.
pub struct Pending {
    pub first: Option<int>,
    pub last: Option<int>,
}

/// The markers after a department group of `count` records was written from
/// `row` on.
pub open spec fn pending_after(p: Pending, deferred: bool, row: int, count: int) -> Pending {
    Pending {
        first: if deferred && p.first is None {
            Some(row)
        } else {
            p.first
        },
        last: if deferred && count > 0 {
            Some(row + count - 1)
        } else {
            p.last
        },
    }
}

/// The markers that a state holds.
pub open spec fn pending_of(state: Apt2AState) -> Pending {
    Pending {
        first: match state.start_row {
            Some(r) => Some(r as int),
            None => None,
        },
        last: match state.end_row {
            Some(r) => Some(r as int),
            None => None,
        },
    }
}

/// Writes the cells of one record's row.
pub fn write_dorm_row_table1(ws: &mut Vec<Instruction>, row: u32, r: &ProcessedRecord)
    ensures
        final(ws).deep_view() == old(ws).deep_view() + dorm_row(row as int, r.deep_view()),
{
    put_text(ws, row, 2, r.teacher.clone(), Style::Cell);
    put_text(ws, row, 3, r.manager.clone(), Style::Cell);
    put_text(ws, row, 4, dorm_display(r.dorm), Style::Cell);
    put_text(ws, row, 5, r.reason.clone(), Style::Cell);
    put_number(ws, row, 6, r.deduction as i64, Style::Cell);
    assert(final(ws).deep_view() =~= old(ws).deep_view() + dorm_row(row as int, r.deep_view()));
}

/// Writes the rows of some records, one below the other from `row` on.
fn write_dorm_rows(ws: &mut Vec<Instruction>, row: u32, records: &Vec<&ProcessedRecord>)
    requires
        row + records@.len() <= u32::MAX,
    ensures
        final(ws).deep_view() == old(ws).deep_view() + dorm_rows(row as int, records.deep_view()),
{
    let ghost all = records.deep_view();
    let mut i: usize = 0;
    assert(ws.deep_view() =~= old(ws).deep_view() + dorm_rows(row as int, all.take(0)));
    while i < records.len()
        invariant
            i <= records.len(),
            row + records@.len() <= u32::MAX,
            all == records.deep_view(),
            ws.deep_view() == old(ws).deep_view() + dorm_rows(row as int, all.take(i as int)),
        decreases records.len() - i,
    {
        let ghost before = ws.deep_view();
        write_dorm_row_table1(ws, row + i as u32, records[i]);
        proof {
            assert(all.take(i + 1).drop_last() =~= all.take(i as int));
            assert(all.take(i + 1).last() == records@[i as int].deep_view());
            assert(ws.deep_view() =~= old(ws).deep_view() + dorm_rows(
                row as int,
                all.take(i + 1),
            ));
        }
        i = i + 1;
    }
    assert(all.take(i as int) =~= all);
}

/// Writes the row of a department without records.
pub fn write_empty_dept_row(ws: &mut Vec<Instruction>, row: u32, dept_display: String, rank: i64)
    ensures
        final(ws).deep_view() == old(ws).deep_view() + placeholder_row(
            row as int,
            dept_display@,
            rank as int,
        ),
{
    put_text(ws, row, 1, dept_display, Style::Cell);
    let mut col: u16 = 2;
    while col <= 7
        invariant
            2 <= col <= 8,
            ws.deep_view() == old(ws).deep_view() + placeholder_row(
                row as int,
                dept_display@,
                rank as int,
            ).take(col - 1),
        decreases 8 - col,
    {
        put_text(ws, row, col, String::from_str("/"), Style::Cell);
        assert(ws.deep_view() =~= old(ws).deep_view() + placeholder_row(
            row as int,
            dept_display@,
            rank as int,
        ).take(col as int));
        col = col + 1;
    }
    put_number(ws, row, 8, rank, Style::Cell);
    assert(final(ws).deep_view() =~= old(ws).deep_view() + placeholder_row(
        row as int,
        dept_display@,
        rank as int,
    ));
}

/// Writes label, total and rank of a group for its rows `first..=last`.
pub fn write_group_summary(
    ws: &mut Vec<Instruction>,
    first: u32,
    last: u32,
    label: String,
    sum: i64,
    rank: i64,
)
    ensures
        final(ws).deep_view() == old(ws).deep_view() + group_summary(
            first as int,
            last as int,
            label@,
            sum as int,
            rank as int,
        ),
{
    merge_or_write_str(ws, first, last, 1, label, Style::Cell);
    merge_or_write_str(ws, first, last, 7, decimal_string(sum), Style::Cell);
    merge_or_write_num(ws, first, last, 8, rank, Style::Cell);
    assert(final(ws).deep_view() =~= old(ws).deep_view() + group_summary(
        first as int,
        last as int,
        label@,
        sum as int,
        rank as int,
    ));
}

/// Writes a department group from `row` on and returns the row below it, or
/// nothing, with the sheet untouched, where the row numbers do not reach that
/// far.
///
/// `records` are the group's records in this apartment, `rank` is its rank.
/// Where the group is the dual-apartment department with records in both
/// apartments, its label, total and rank are left out and the rows are noted
/// in `apt2a` instead.
pub fn write_dept_group(
    ws: &mut Vec<Instruction>,
    row: u32,
    grade: u8,
    dept: &String,
    records: &Vec<&ProcessedRecord>,
    rank: i64,
    roster: &[DepartmentRecord],
    apt2a: &mut Apt2AState,
) -> (next: Option<u32>)
    ensures
        final(apt2a).in_both == old(apt2a).in_both,
        final(apt2a).in_apt1_only == old(apt2a).in_apt1_only,
        final(apt2a).in_apt2_only == old(apt2a).in_apt2_only,
        final(apt2a).in_neither == old(apt2a).in_neither,
        match next {
            Some(n) => {
                let k = DeptKeyView { grade, dept: dept@ };
                let deferred = is_dual(k) && old(apt2a).in_both;
                &&& n == row + group_height(records.deep_view())
                &&& final(ws).deep_view() == old(ws).deep_view() + dept_group(
                    row as int,
                    dept_label(grade, dept@, leader_of(roster.deep_view(), k)),
                    records.deep_view(),
                    rank as int,
                    deferred,
                )
                &&& pending_of(*final(apt2a)) == pending_after(
                    pending_of(*old(apt2a)),
                    deferred,
                    row as int,
                    records@.len() as int,
                )
            },
            None => {
                &&& row + group_height(records.deep_view()) > u32::MAX
                &&& final(ws)@ == old(ws)@
                &&& *final(apt2a) == *old(apt2a)
            },
        },
{
    let height: usize = if records.len() == 0 {
        1
    } else {
        records.len()
    };
    let next = match advance(row, height) {
        Some(n) => n,
        None => {
            return None;
        },
    };
    let leader: &str = match find_department(roster, grade, dept) {
        Some(e) => e.leader.as_str(),
        None => {
            proof {
                reveal_strlit("");
            }
            assert(""@ =~= Seq::<char>::empty());
            ""
        },
    };
    let dept_display = dept_display(grade, dept.as_str(), leader);
    let is_2a = grade == 2 && is_code_a(dept.as_str());
    if is_2a && apt2a.in_both && apt2a.start_row.is_none() {
        apt2a.start_row = Some(row);
    }
    if records.len() == 0 {
        write_empty_dept_row(ws, row, dept_display, rank);
    } else {
        let sorted = sort_by_dorm(records);
        let sum = total_of(records);
        write_dorm_rows(ws, row, &sorted);
        if is_2a && apt2a.in_both {
            apt2a.end_row = Some(next - 1);
        } else {
            write_group_summary(ws, row, next - 1, dept_display, sum, rank);
            assert(final(ws).deep_view() =~= old(ws).deep_view() + dept_group(
                row as int,
                dept_label(
                    grade,
                    dept@,
                    leader_of(roster.deep_view(), DeptKeyView { grade, dept: dept@ }),
                ),
                records.deep_view(),
                rank as int,
                false,
            ));
        }
    }
    Some(next)
}

/// Writes a classroom group from `row` on and returns the row below it, or
/// nothing, with the sheet untouched, where the row numbers do not reach that
/// far. A classroom without records writes nothing.
pub fn write_class_group(
    ws: &mut Vec<Instruction>,
    row: u32,
    class_num: u8,
    records: &Vec<&ProcessedRecord>,
    rank: i64,
) -> (next: Option<u32>)
    ensures
        match next {
            Some(n) => {
                &&& n == row + records@.len()
                &&& final(ws).deep_view() == old(ws).deep_view() + class_group(
                    row as int,
                    class_num,
                    records.deep_view(),
                    rank as int,
                )
            },
            None => row + records@.len() > u32::MAX && final(ws)@ == old(ws)@,
        },
        records@.len() == 0 ==> next == Some(row) && final(ws)@ == old(ws)@,
{
    if records.len() == 0 {
        assert(ws.deep_view() =~= old(ws).deep_view() + class_group(
            row as int,
            class_num,
            records.deep_view(),
            rank as int,
        ));
        return Some(row);
    }
    let next = match advance(row, records.len()) {
        Some(n) => n,
        None => {
            return None;
        },
    };
    let sorted = sort_by_dorm(records);
    let sum = total_of(records);
    write_dorm_rows(ws, row, &sorted);
    write_group_summary(ws, row, next - 1, class_display(class_num), sum, rank);
    assert(final(ws).deep_view() =~= old(ws).deep_view() + class_group(
        row as int,
        class_num,
        records.deep_view(),
        rank as int,
    ));
    Some(next)
}

/// Where the writing of a table stands: what was written, the next free row,
/// and the markers of the merge that is still to come.
pub struct Cursor {
    pub ops: Seq<InstructionView>,
    pub row: int,
    pub pending: Pending,
}

/// The totals of some departments over the whole report.
pub open spec fn key_totals(data: Seq<ProcessedRecordView>, keys: Seq<DeptKeyView>) -> Set<int>
    decreases keys.len(),
{
    if keys.len() == 0 {
        Set::empty()
    } else {
        key_totals(data, keys.drop_last()).insert(
            total(members(data, None, department(keys.last()))),
        )
    }
}

/// The totals that take part in the ranking of departments: that of every
/// department of the roster, with or without records, and of every
/// department that a record names, each over all apartments.
pub open spec fn department_totals(
    data: Seq<ProcessedRecordView>,
    roster: Seq<DepartmentRecordView>,
) -> Set<int> {
    key_totals(data, department_keys(data, roster, None, data.len() as int))
}

/// The rank of a department: that of its total over all apartments among all
/// departments.
pub open spec fn department_rank(
    data: Seq<ProcessedRecordView>,
    roster: Seq<DepartmentRecordView>,
    k: DeptKeyView,
) -> int {
    dense_rank(department_totals(data, roster), total(members(data, None, department(k))))
}

/// The classroom group of a classroom number.
pub open spec fn classroom(class: u8) -> GroupView {
    GroupView::Classroom { class }
}

/// The totals of the classroom groups of an apartment that have records,
/// for classroom numbers below `n`.
pub open spec fn class_totals(data: Seq<ProcessedRecordView>, apt: u8, n: int) -> Set<int>
    decreases n,
{
    if n <= 0 {
        Set::empty()
    } else {
        let rest = class_totals(data, apt, n - 1);
        let records = members(data, Some(apt), classroom((n - 1) as u8));
        if records.len() > 0 {
            rest.insert(total(records))
        } else {
            rest
        }
    }
}

/// The rank of a classroom group: that of its total among the classroom
/// groups of its apartment.
pub open spec fn class_rank(data: Seq<ProcessedRecordView>, apt: u8, class: u8) -> int {
    dense_rank(class_totals(data, apt, 256), total(members(data, Some(apt), classroom(class))))
}

/// The cursor after the group of department `k` in the block of `apt`.
pub open spec fn after_dept_group(
    c: Cursor,
    data: Seq<ProcessedRecordView>,
    roster: Seq<DepartmentRecordView>,
    apt: u8,
    k: DeptKeyView,
) -> Cursor {
    let records = members(data, Some(apt), department(k));
    let deferred = is_dual(k) && dual_in_both(data);
    Cursor {
        ops: c.ops + dept_group(
            c.row,
            dept_label(k.grade, k.dept, leader_of(roster, k)),
            records,
            department_rank(data, roster, k),
            deferred,
        ),
        row: c.row + group_height(records),
        pending: pending_after(c.pending, deferred, c.row, records.len() as int),
    }
}

/// The cursor after the groups of the departments `keys`, in that order.
pub open spec fn after_dept_groups(
    c: Cursor,
    data: Seq<ProcessedRecordView>,
    roster: Seq<DepartmentRecordView>,
    apt: u8,
    keys: Seq<DeptKeyView>,
) -> Cursor
    decreases keys.len(),
{
    if keys.len() == 0 {
        c
    } else {
        after_dept_group(
            after_dept_groups(c, data, roster, apt, keys.drop_last()),
            data,
            roster,
            apt,
            keys.last(),
        )
    }
}

/// The number of rows of the classroom groups of `apt` with numbers below
/// `n`.
pub open spec fn class_groups_height(data: Seq<ProcessedRecordView>, apt: u8, n: int) -> int
    decreases n,
{
    if n <= 0 {
        0
    } else {
        class_groups_height(data, apt, n - 1) + members(
            data,
            Some(apt),
            classroom((n - 1) as u8),
        ).len()
    }
}

/// The classroom groups of `apt` with numbers below `n`, in ascending order
/// of number, from `row` on.
pub open spec fn class_groups(row: int, data: Seq<ProcessedRecordView>, apt: u8, n: int) -> Seq<
    InstructionView,
>
    decreases n,
{
    if n <= 0 {
        Seq::empty()
    } else {
        class_groups(row, data, apt, n - 1) + class_group(
            row + class_groups_height(data, apt, n - 1),
            (n - 1) as u8,
            members(data, Some(apt), classroom((n - 1) as u8)),
            class_rank(data, apt, (n - 1) as u8),
        )
    }
}

/// The cursor after the block of apartment `apt`: its department groups in
/// ascending order of key, then its classroom groups, then the apartment's
/// label shown once for all rows of the block.
pub open spec fn after_block(
    c: Cursor,
    data: Seq<ProcessedRecordView>,
    roster: Seq<DepartmentRecordView>,
    apt: u8,
) -> Cursor {
    let keys = department_keys(data, roster, Some(apt), data.len() as int);
    let d = after_dept_groups(c, data, roster, apt, keys);
    let ops = d.ops + class_groups(d.row, data, apt, 256);
    let row = d.row + class_groups_height(data, apt, 256);
    if row > c.row {
        Cursor {
            ops: ops.push(span_text(c.row, row - 1, 0, apt_label(apt), Style::Cell)),
            row,
            pending: d.pending,
        }
    } else {
        Cursor { ops, row, pending: d.pending }
    }
}

/// The cursor after the blocks of the listed apartments from number 255
/// down to number `lo`.
pub open spec fn after_blocks(
    c: Cursor,
    data: Seq<ProcessedRecordView>,
    roster: Seq<DepartmentRecordView>,
    lo: int,
) -> Cursor
    decreases 256 - lo,
{
    if lo >= 256 {
        c
    } else {
        let d = after_blocks(c, data, roster, lo + 1);
        if is_listed(roster, lo as u8) {
            after_block(d, data, roster, lo as u8)
        } else {
            d
        }
    }
}

/// The column headers of the department table.
pub open spec fn table1_headers(row: int) -> Seq<InstructionView> {
    seq![
        text_cell(row, 0, "公寓"@, Style::Header),
        text_cell(row, 1, "级部"@, Style::Header),
        text_cell(row, 2, "班主任"@, Style::Header),
        text_cell(row, 3, "宿舍管理员"@, Style::Header),
        text_cell(row, 4, "宿舍号"@, Style::Header),
        text_cell(row, 5, "扣分原因"@, Style::Header),
        text_cell(row, 6, "扣分"@, Style::Header),
        text_cell(row, 7, "总扣分"@, Style::Header),
        text_cell(row, 8, "排名"@, Style::Header),
    ]
}

/// The key of the dual-apartment department.
pub open spec fn dual_key() -> DeptKeyView {
    DeptKeyView { grade: 2, dept: seq!['A'] }
}

/// The merges that show label, total and rank of the dual-apartment
/// department once for the rows `first..=last`. The total is the one over
/// all apartments.
pub open spec fn deferred_merges(
    first: int,
    last: int,
    data: Seq<ProcessedRecordView>,
    roster: Seq<DepartmentRecordView>,
) -> Seq<InstructionView> {
    let k = dual_key();
    seq![
        merged(first, 1, last, 1, dept_label(2, k.dept, leader_of(roster, k)), Style::Cell),
        merged(
            first,
            7,
            last,
            7,
            decimal(total(members(data, None, department(k)))),
            Style::Cell,
        ),
        merged(first, 8, last, 8, decimal(department_rank(data, roster, k)), Style::Cell),
    ]
}

/// The department table from `start_row` on: the column headers, the blocks
/// of the listed apartments in descending order, and at the end the merges
/// of the dual-apartment department where it has records in both
/// apartments. `row` is the first row below the table.
pub open spec fn department_table(
    start_row: int,
    data: Seq<ProcessedRecordView>,
    roster: Seq<DepartmentRecordView>,
) -> Cursor {
    let start = Cursor {
        ops: table1_headers(start_row),
        row: start_row + 1,
        pending: Pending { first: None, last: None },
    };
    let c = after_blocks(start, data, roster, 0);
    if dual_in_both(data) && c.pending.first is Some && c.pending.last is Some {
        Cursor {
            ops: c.ops + deferred_merges(
                c.pending.first->0,
                c.pending.last->0,
                data,
                roster,
            ),
            row: c.row,
            pending: c.pending,
        }
    } else {
        c
    }
}

/// Rows only grow while department groups are written.
proof fn lemma_dept_groups_grow(
    c: Cursor,
    data: Seq<ProcessedRecordView>,
    roster: Seq<DepartmentRecordView>,
    apt: u8,
    keys: Seq<DeptKeyView>,
    j: int,
)
    requires
        0 <= j <= keys.len(),
    ensures
        c.row <= after_dept_groups(c, data, roster, apt, keys.take(j)).row <= after_dept_groups(
            c,
            data,
            roster,
            apt,
            keys,
        ).row,
    decreases keys.len(),
{
    if j == keys.len() {
        assert(keys.take(j) =~= keys);
        if j > 0 {
            lemma_dept_groups_grow(c, data, roster, apt, keys.drop_last(), j - 1);
        }
    } else {
        assert(keys.drop_last().take(j) =~= keys.take(j));
        lemma_dept_groups_grow(c, data, roster, apt, keys.drop_last(), j);
    }
}

/// Rows only grow while classroom groups are written.
proof fn lemma_class_groups_grow(data: Seq<ProcessedRecordView>, apt: u8, n: int, m: int)
    requires
        0 <= n <= m,
    ensures
        0 <= class_groups_height(data, apt, n) <= class_groups_height(data, apt, m),
    decreases m,
{
    if n < m {
        lemma_class_groups_grow(data, apt, n, m - 1);
    } else if n > 0 {
        lemma_class_groups_grow(data, apt, n - 1, m - 1);
    }
}

/// Rows only grow while a block is written.
proof fn lemma_block_grows(
    c: Cursor,
    data: Seq<ProcessedRecordView>,
    roster: Seq<DepartmentRecordView>,
    apt: u8,
)
    ensures
        c.row <= after_block(c, data, roster, apt).row,
{
    let keys = department_keys(data, roster, Some(apt), data.len() as int);
    lemma_dept_groups_grow(c, data, roster, apt, keys, 0);
    lemma_class_groups_grow(data, apt, 0, 256);
}

/// Rows only grow from block to block.
pub(crate) proof fn lemma_blocks_grow(
    c: Cursor,
    data: Seq<ProcessedRecordView>,
    roster: Seq<DepartmentRecordView>,
    lo: int,
    hi: int,
)
    requires
        0 <= lo <= hi <= 256,
    ensures
        c.row <= after_blocks(c, data, roster, hi).row <= after_blocks(c, data, roster, lo).row,
    decreases 256 - lo,
{
    if lo < hi {
        lemma_blocks_grow(c, data, roster, lo + 1, hi);
        lemma_block_grows(after_blocks(c, data, roster, lo + 1), data, roster, lo as u8);
    } else if lo < 256 {
        lemma_blocks_grow(c, data, roster, lo + 1, hi + 1);
        lemma_block_grows(after_blocks(c, data, roster, lo + 1), data, roster, lo as u8);
    }
}

/// Collects the department keys of a scope in ascending order.
fn collect_keys<'a>(
    data: &'a [ProcessedRecord],
    roster: &'a [DepartmentRecord],
    apt2a: &Apt2AState,
    scope: Option<u8>,
) -> (keys: Vec<DeptKey<'a>>)
    requires
        apt2a.describes(data.deep_view()),
    ensures
        keys.deep_view() == department_keys(
            data.deep_view(),
            roster.deep_view(),
            scope,
            data@.len() as int,
        ),
        keys@.len() <= roster@.len() + data@.len(),
{
    let ghost records = data.deep_view();
    let ghost entries = roster.deep_view();
    let mut keys: Vec<DeptKey<'a>> = Vec::new();
    let mut i: usize = 0;
    assert(keys.deep_view() =~= seeded_keys(records, entries, scope, 0));
    while i < roster.len()
        invariant
            i <= roster.len(),
            records == data.deep_view(),
            entries == roster.deep_view(),
            apt2a.describes(records),
            keys.deep_view() == seeded_keys(records, entries, scope, i as int),
            keys@.len() <= i,
        decreases roster.len() - i,
    {
        let e = &roster[i];
        assert(entries[i as int] == e.deep_view());
        let seeds = match scope {
            None => true,
            Some(apt) => if e.grade == 2 && is_code_a(e.dept.as_str()) {
                apt2a.should_show_in_apt(apt)
            } else {
                match find_department(roster, e.grade, &e.dept) {
                    Some(entry) => entry.apartment == apt,
                    None => false,
                }
            },
        };
        assert(seeds == seeded_in(records, entries, roster_key(entries[i as int]), scope));
        if seeds {
            add_key(&mut keys, e.grade, &e.dept);
        }
        i = i + 1;
    }
    let mut j: usize = 0;
    while j < data.len()
        invariant
            j <= data.len(),
            records == data.deep_view(),
            entries == roster.deep_view(),
            keys.deep_view() == department_keys(records, entries, scope, j as int),
            keys@.len() <= roster@.len() + j,
        decreases data.len() - j,
    {
        let r = &data[j];
        assert(records[j as int] == r.deep_view());
        let inside = match scope {
            Some(apt) => r.apartment == apt,
            None => true,
        };
        if !r.dept.as_str().is_empty() && inside {
            add_key(&mut keys, r.grade, &r.dept);
        }
        j = j + 1;
    }
    keys
}

/// Whether the roster lists some department under apartment `apt`.
pub fn apartment_listed(roster: &[DepartmentRecord], apt: u8) -> (listed: bool)
    ensures
        listed == is_listed(roster.deep_view(), apt),
{
    let ghost entries = roster.deep_view();
    let mut i: usize = 0;
    while i < roster.len()
        invariant
            i <= roster.len(),
            entries == roster.deep_view(),
            forall|j: int| 0 <= j < i ==> !is_home(entries, roster_key(#[trigger] entries[j]), apt),
        decreases roster.len() - i,
    {
        let e = &roster[i];
        assert(entries[i as int] == e.deep_view());
        let home = match find_department(roster, e.grade, &e.dept) {
            Some(entry) => entry.apartment == apt,
            None => false,
        };
        if home {
            return true;
        }
        i = i + 1;
    }
    false
}

/// Builds the scale on which departments are ranked.
fn department_scale(
    data: &[ProcessedRecord],
    roster: &[DepartmentRecord],
    apt2a: &Apt2AState,
) -> (scale: RankScale)
    requires
        apt2a.describes(data.deep_view()),
        data@.len() <= u32::MAX,
    ensures
        scale.wf(),
        scale@ == department_totals(data.deep_view(), roster.deep_view()),
        scale@.len() <= roster@.len() + data@.len(),
{
    let ghost records = data.deep_view();
    let keys = collect_keys(data, roster, apt2a, None);
    let ghost all = keys.deep_view();
    let mut scale = RankScale::new();
    let mut i: usize = 0;
    assert(all.take(0) =~= Seq::<DeptKeyView>::empty());
    while i < keys.len()
        invariant
            i <= keys.len(),
            records == data.deep_view(),
            all == keys.deep_view(),
            data@.len() <= u32::MAX,
            scale.wf(),
            scale@ == key_totals(records, all.take(i as int)),
            scale@.len() <= i,
        decreases keys.len() - i,
    {
        let k = &keys[i];
        let group = GroupKey::Department { grade: k.grade, dept: k.dept };
        assert(group.deep_view() == department(all[i as int]));
        let records_of = select(data, None, &group);
        let sum = total_of(&records_of);
        proof {
            assert(all.take(i + 1).drop_last() =~= all.take(i as int));
            assert(all.take(i + 1).last() == all[i as int]);
        }
        scale.add(sum);
        i = i + 1;
    }
    assert(all.take(i as int) =~= all);
    scale
}

/// Builds the scale on which the classroom groups of an apartment are ranked.
fn class_scale(data: &[ProcessedRecord], apt: u8) -> (scale: RankScale)
    requires
        data@.len() <= u32::MAX,
    ensures
        scale.wf(),
        scale@ == class_totals(data.deep_view(), apt, 256),
        scale@.len() <= 256,
{
    let ghost records = data.deep_view();
    let mut scale = RankScale::new();
    let mut n: u16 = 0;
    while n < 256
        invariant
            n <= 256,
            records == data.deep_view(),
            data@.len() <= u32::MAX,
            scale.wf(),
            scale@ == class_totals(records, apt, n as int),
            scale@.len() <= n,
        decreases 256 - n,
    {
        let group = GroupKey::Classroom { class: n as u8 };
        let records_of = select(data, Some(apt), &group);
        if records_of.len() > 0 {
            scale.add(total_of(&records_of));
        }
        assert(records_of.deep_view().len() == records_of@.len());
        n = n + 1;
    }
    scale
}

/// Writes the column headers of the department table.
pub fn write_table1_headers(ws: &mut Vec<Instruction>, row: u32)
    ensures
        final(ws).deep_view() == old(ws).deep_view() + table1_headers(row as int),
{
    put_text(ws, row, 0, String::from_str("公寓"), Style::Header);
    put_text(ws, row, 1, String::from_str("级部"), Style::Header);
    put_text(ws, row, 2, String::from_str("班主任"), Style::Header);
    put_text(ws, row, 3, String::from_str("宿舍管理员"), Style::Header);
    put_text(ws, row, 4, String::from_str("宿舍号"), Style::Header);
    put_text(ws, row, 5, String::from_str("扣分原因"), Style::Header);
    put_text(ws, row, 6, String::from_str("扣分"), Style::Header);
    put_text(ws, row, 7, String::from_str("总扣分"), Style::Header);
    put_text(ws, row, 8, String::from_str("排名"), Style::Header);
    assert(final(ws).deep_view() =~= old(ws).deep_view() + table1_headers(row as int));
}

/// Writes the department groups of the block of `apt` from `row` on and
/// returns the row below them, or nothing where the row numbers do not reach
/// that far.
fn write_dept_groups(
    ws: &mut Vec<Instruction>,
    row: u32,
    data: &[ProcessedRecord],
    roster: &[DepartmentRecord],
    apt: u8,
    scale: &RankScale,
    apt2a: &mut Apt2AState,
) -> (next: Option<u32>)
    requires
        old(apt2a).describes(data.deep_view()),
        data@.len() <= u32::MAX,
        scale.wf(),
        scale@ == department_totals(data.deep_view(), roster.deep_view()),
        scale@.len() < i64::MAX,
    ensures
        final(apt2a).describes(data.deep_view()),
        ({
            let keys = department_keys(
                data.deep_view(),
                roster.deep_view(),
                Some(apt),
                data@.len() as int,
            );
            let start = Cursor {
                ops: old(ws).deep_view(),
                row: row as int,
                pending: pending_of(*old(apt2a)),
            };
            let end = after_dept_groups(start, data.deep_view(), roster.deep_view(), apt, keys);
            match next {
                Some(n) => {
                    &&& final(ws).deep_view() == end.ops
                    &&& n == end.row
                    &&& pending_of(*final(apt2a)) == end.pending
                },
                None => end.row > u32::MAX,
            }
        }),
{
    let ghost records = data.deep_view();
    let ghost entries = roster.deep_view();
    let ghost start = Cursor {
        ops: old(ws).deep_view(),
        row: row as int,
        pending: pending_of(*old(apt2a)),
    };
    let keys = collect_keys(data, roster, apt2a, Some(apt));
    let ghost all = keys.deep_view();
    let mut cur = row;
    let mut i: usize = 0;
    assert(all.take(0) =~= Seq::<DeptKeyView>::empty());
    while i < keys.len()
        invariant
            i <= keys.len(),
            records == data.deep_view(),
            entries == roster.deep_view(),
            all == keys.deep_view(),
            all == department_keys(records, entries, Some(apt), records.len() as int),
            start == (Cursor {
                ops: old(ws).deep_view(),
                row: row as int,
                pending: pending_of(*old(apt2a)),
            }),
            data@.len() <= u32::MAX,
            apt2a.describes(records),
            scale.wf(),
            scale@ == department_totals(records, entries),
            scale@.len() < i64::MAX,
            ws.deep_view() == after_dept_groups(start, records, entries, apt, all.take(i as int)).ops,
            cur == after_dept_groups(start, records, entries, apt, all.take(i as int)).row,
            pending_of(*apt2a) == after_dept_groups(
                start,
                records,
                entries,
                apt,
                all.take(i as int),
            ).pending,
        decreases keys.len() - i,
    {
        let k = &keys[i];
        let local = GroupKey::Department { grade: k.grade, dept: k.dept };
        assert(local.deep_view() == department(all[i as int]));
        let records_of = select(data, Some(apt), &local);
        let everywhere = select(data, None, &local);
        let rank = scale.rank_of(total_of(&everywhere));
        proof {
            assert(all.take(i + 1).drop_last() =~= all.take(i as int));
            assert(all.take(i + 1).last() == all[i as int]);
            assert(records_of.deep_view().len() == records_of@.len());
            assert(all[i as int] == (DeptKeyView { grade: k.grade, dept: k.dept@ }));
        }
        match write_dept_group(ws, cur, k.grade, k.dept, &records_of, rank, roster, apt2a) {
            Some(n) => {
                cur = n;
            },
            None => {
                proof {
                    lemma_dept_groups_grow(start, records, entries, apt, all, i + 1);
                    assert(after_dept_groups(start, records, entries, apt, all.take(i + 1)).row
                        == cur + group_height(records_of.deep_view()));
                }
                return None;
            },
        }
        i = i + 1;
    }
    assert(all.take(i as int) =~= all);
    Some(cur)
}

/// Writes the classroom groups of the block of `apt` from `row` on and
/// returns the row below them, or nothing where the row numbers do not reach
/// that far.
fn write_class_groups(ws: &mut Vec<Instruction>, row: u32, data: &[ProcessedRecord], apt: u8)
    -> (next: Option<u32>)
    requires
        data@.len() <= u32::MAX,
    ensures
        match next {
            Some(n) => {
                &&& final(ws).deep_view() == old(ws).deep_view() + class_groups(
                    row as int,
                    data.deep_view(),
                    apt,
                    256,
                )
                &&& n == row + class_groups_height(data.deep_view(), apt, 256)
            },
            None => row + class_groups_height(data.deep_view(), apt, 256) > u32::MAX,
        },
{
    let ghost records = data.deep_view();
    let ghost base = old(ws).deep_view();
    let scale = class_scale(data, apt);
    let mut cur = row;
    let mut n: u16 = 0;
    assert(ws.deep_view() =~= base + class_groups(row as int, records, apt, 0));
    while n < 256
        invariant
            n <= 256,
            records == data.deep_view(),
            base == old(ws).deep_view(),
            data@.len() <= u32::MAX,
            scale.wf(),
            scale@ == class_totals(records, apt, 256),
            scale@.len() <= 256,
            ws.deep_view() == base + class_groups(row as int, records, apt, n as int),
            cur == row + class_groups_height(records, apt, n as int),
        decreases 256 - n,
    {
        let group = GroupKey::Classroom { class: n as u8 };
        let records_of = select(data, Some(apt), &group);
        let rank = if records_of.len() > 0 {
            scale.rank_of(total_of(&records_of))
        } else {
            0
        };
        let ghost before = ws.deep_view();
        proof {
            assert(records_of.deep_view().len() == records_of@.len());
            if records_of@.len() == 0 {
                assert(class_group(cur as int, n as u8, records_of.deep_view(), rank as int)
                    =~= class_group(
                    cur as int,
                    n as u8,
                    records_of.deep_view(),
                    class_rank(records, apt, n as u8),
                ));
            }
        }
        match write_class_group(ws, cur, n as u8, &records_of, rank) {
            Some(next_row) => {
                cur = next_row;
            },
            None => {
                proof {
                    lemma_class_groups_grow(records, apt, n + 1, 256);
                    assert(class_groups_height(records, apt, n + 1) == class_groups_height(
                        records,
                        apt,
                        n as int,
                    ) + records_of@.len());
                }
                return None;
            },
        }
        assert(ws.deep_view() =~= base + class_groups(row as int, records, apt, n + 1));
        n = n + 1;
    }
    Some(cur)
}

/// Writes the block of apartment `apt` from `row` on and returns the row
/// below it, or nothing where the row numbers do not reach that far.
fn write_block(
    ws: &mut Vec<Instruction>,
    row: u32,
    data: &[ProcessedRecord],
    roster: &[DepartmentRecord],
    apt: u8,
    scale: &RankScale,
    apt2a: &mut Apt2AState,
) -> (next: Option<u32>)
    requires
        old(apt2a).describes(data.deep_view()),
        data@.len() <= u32::MAX,
        scale.wf(),
        scale@ == department_totals(data.deep_view(), roster.deep_view()),
        scale@.len() < i64::MAX,
    ensures
        final(apt2a).describes(data.deep_view()),
        ({
            let start = Cursor {
                ops: old(ws).deep_view(),
                row: row as int,
                pending: pending_of(*old(apt2a)),
            };
            let end = after_block(start, data.deep_view(), roster.deep_view(), apt);
            match next {
                Some(n) => {
                    &&& final(ws).deep_view() == end.ops
                    &&& n == end.row
                    &&& pending_of(*final(apt2a)) == end.pending
                },
                None => end.row > u32::MAX,
            }
        }),
{
    let ghost records = data.deep_view();
    let ghost entries = roster.deep_view();
    let ghost keys = department_keys(records, entries, Some(apt), records.len() as int);
    let ghost start = Cursor {
        ops: old(ws).deep_view(),
        row: row as int,
        pending: pending_of(*old(apt2a)),
    };
    let apt_start = row;
    let below_departments = match write_dept_groups(ws, row, data, roster, apt, scale, apt2a) {
        Some(n) => n,
        None => {
            proof {
                lemma_class_groups_grow(records, apt, 0, 256);
            }
            return None;
        },
    };
    let row = match write_class_groups(ws, below_departments, data, apt) {
        Some(n) => n,
        None => {
            return None;
        },
    };
    if row > apt_start {
        merge_or_write_str(ws, apt_start, row - 1, 0, apt_display_name(apt), Style::Cell);
    }
    Some(row)
}

/// Writes the department table from `start_row` on.
///
/// The table opens with its column headers. A block follows for each
/// apartment under which the roster lists a department, in descending order
/// of apartment number. Where the dual-apartment department has records in
/// both apartments, its label, its total over all apartments and its rank are
/// merged at the end across the rows from its first to its last group.
pub fn write_table1(start_row: u32, data: &[ProcessedRecord], roster: &[DepartmentRecord]) -> (out:
    Result<Table, LayoutError>)
    requires
        data@.len() <= u32::MAX,
        roster@.len() <= u32::MAX,
    ensures
        match out {
            Ok(table) => {
                &&& table.instructions.deep_view() == department_table(
                    start_row as int,
                    data.deep_view(),
                    roster.deep_view(),
                ).ops
                &&& table.next_row == department_table(
                    start_row as int,
                    data.deep_view(),
                    roster.deep_view(),
                ).row
            },
            Err(e) => department_table(
                start_row as int,
                data.deep_view(),
                roster.deep_view(),
            ).row > u32::MAX,
        },
{
    let ghost records = data.deep_view();
    let ghost entries = roster.deep_view();
    let ghost start = Cursor {
        ops: table1_headers(start_row as int),
        row: start_row + 1,
        pending: Pending { first: None, last: None },
    };
    proof {
        lemma_blocks_grow(start, records, entries, 0, 256);
    }
    let mut row = match advance(start_row, 1) {
        Some(n) => n,
        None => {
            return Err(LayoutError::RowOverflow);
        },
    };
    let mut ws: Vec<Instruction> = Vec::new();
    write_table1_headers(&mut ws, start_row);
    assert(ws.deep_view() =~= table1_headers(start_row as int));
    let mut apt2a = Apt2AState::new(data);
    let scale = department_scale(data, roster, &apt2a);
    let mut lo: u16 = 256;
    while lo > 0
        invariant
            lo <= 256,
            records == data.deep_view(),
            entries == roster.deep_view(),
            data@.len() <= u32::MAX,
            roster@.len() <= u32::MAX,
            apt2a.describes(records),
            scale.wf(),
            scale@ == department_totals(records, entries),
            scale@.len() < i64::MAX,
            start == (Cursor {
                ops: table1_headers(start_row as int),
                row: start_row + 1,
                pending: Pending { first: None, last: None },
            }),
            ws.deep_view() == after_blocks(start, records, entries, lo as int).ops,
            row == after_blocks(start, records, entries, lo as int).row,
            pending_of(apt2a) == after_blocks(start, records, entries, lo as int).pending,
        decreases lo,
    {
        let apt: u8 = (lo - 1) as u8;
        if apartment_listed(roster, apt) {
            match write_block(&mut ws, row, data, roster, apt, &scale, &mut apt2a) {
                Some(n) => {
                    row = n;
                },
                None => {
                    proof {
                        lemma_blocks_grow(start, records, entries, 0, lo - 1);
                    }
                    return Err(LayoutError::RowOverflow);
                },
            }
        }
        lo = lo - 1;
    }
    if apt2a.in_both {
        match (apt2a.start_row, apt2a.end_row) {
            (Some(first), Some(last)) => {
                proof {
                    reveal_strlit("A");
                }
                let code = String::from_str("A");
                assert(code@ =~= seq!['A']);
                let leader: &str = match find_department(roster, 2, &code) {
                    Some(e) => e.leader.as_str(),
                    None => {
                        proof {
                            reveal_strlit("");
                        }
                        assert(""@ =~= Seq::<char>::empty());
                        ""
                    },
                };
                let group = GroupKey::Department { grade: 2, dept: &code };
                assert(group.deep_view() == department(dual_key()));
                let sum = total_of(&select(data, None, &group));
                let rank = scale.rank_of(sum);
                let ghost before = ws.deep_view();
                put_merge(
                    &mut ws,
                    first,
                    1,
                    last,
                    1,
                    dept_display(2, code.as_str(), leader),
                    Style::Cell,
                );
                put_merge(&mut ws, first, 7, last, 7, decimal_string(sum), Style::Cell);
                put_merge(&mut ws, first, 8, last, 8, decimal_string(rank), Style::Cell);
                assert(ws.deep_view() =~= before + deferred_merges(
                    first as int,
                    last as int,
                    records,
                    entries,
                ));
            },
            _ => {},
        }
    }
    Ok(Table { instructions: ws, next_row: row })
}

/// The apartment in whose block a department without records is shown: the
/// one under which the roster lists it, and apartment 1 for the
/// dual-apartment department.
pub open spec fn placeholder_home(roster: Seq<DepartmentRecordView>, k: DeptKeyView) -> u8 {
    if is_dual(k) {
        1
    } else {
        department_entry(roster, k)->0.apartment
    }
}

/// A department of the roster that no record names is shown all the same, as
/// exactly one row: it is a group of exactly one block, once, and that group
/// is one placeholder row.
///
/// For the dual-apartment department this asks that apartment 1 is an
/// apartment of the table, as that is where it is shown without records.
pub proof fn lemma_department_without_records(
    data: Seq<ProcessedRecordView>,
    roster: Seq<DepartmentRecordView>,
    k: DeptKeyView,
)
    requires
        on_roster(roster, k, roster.len() as int),
        members(data, None, department(k)).len() == 0,
        is_dual(k) ==> is_listed(roster, 1),
    ensures
        is_listed(roster, placeholder_home(roster, k)),
        forall|apt: u8|
            #[trigger] department_keys(data, roster, Some(apt), data.len() as int).contains(k)
                <==> apt == placeholder_home(roster, k),
        forall|apt: u8|
            (#[trigger] department_keys(
                data,
                roster,
                Some(apt),
                data.len() as int,
            )).no_duplicates(),
        forall|c: Cursor, apt: u8|
            {
                let d = #[trigger] after_dept_group(c, data, roster, apt, k);
                &&& d.row == c.row + 1
                &&& d.ops == c.ops + placeholder_row(
                    c.row,
                    dept_label(k.grade, k.dept, leader_of(roster, k)),
                    department_rank(data, roster, k),
                )
            },
{
    let home = placeholder_home(roster, k);
    lemma_members_empty(data, None, department(k));
    lemma_roster_department(roster, k);
    assert forall|i: int| 0 <= i < data.len() implies !is_dual(record_key(#[trigger] data[i]))
        || !is_dual(k) by {
        if is_dual(k) && is_dual(record_key(data[i])) {
            assert(data[i].dept.len() == 1);
            assert(data[i].dept =~= k.dept);
            assert(in_scope(data[i], None) && belongs(data[i], department(k)));
        }
    }
    assert forall|apt: u8|
        #[trigger] department_keys(data, roster, Some(apt), data.len() as int).contains(k) <==> apt
            == home by {
        lemma_department_keys(data, roster, Some(apt), data.len() as int);
        if brought(data, k, Some(apt), data.len() as int) {
            let j = choose|j: int|
                0 <= j < data.len() && brings_key(#[trigger] data[j], Some(apt)) && record_key(
                    data[j],
                ) == k;
            assert(in_scope(data[j], None) && belongs(data[j], department(k)));
        }
    }
    assert forall|apt: u8|
        (#[trigger] department_keys(data, roster, Some(apt), data.len() as int)).no_duplicates() by {
        lemma_department_keys(data, roster, Some(apt), data.len() as int);
    }
    assert forall|c: Cursor, apt: u8|
        {
            let d = #[trigger] after_dept_group(c, data, roster, apt, k);
            &&& d.row == c.row + 1
            &&& d.ops == c.ops + placeholder_row(
                c.row,
                dept_label(k.grade, k.dept, leader_of(roster, k)),
                department_rank(data, roster, k),
            )
        } by {
        lemma_members_empty(data, Some(apt), department(k));
        assert forall|i: int| 0 <= i < data.len() implies !(in_scope(#[trigger] data[i], Some(apt))
            && belongs(data[i], department(k))) by {
            assert(!(in_scope(data[i], None) && belongs(data[i], department(k))));
        }
    }
}

/// A classroom without records in an apartment is not shown in that
/// apartment's block: it adds no instruction and no row.
pub proof fn lemma_classroom_without_records(
    data: Seq<ProcessedRecordView>,
    apt: u8,
    class: u8,
    row: int,
)
    requires
        members(data, Some(apt), classroom(class)).len() == 0,
    ensures
        class_groups(row, data, apt, class + 1) == class_groups(row, data, apt, class as int),
        class_groups_height(data, apt, class + 1) == class_groups_height(data, apt, class as int),
{
    assert(class_groups(row, data, apt, class as int) + Seq::<InstructionView>::empty()
        =~= class_groups(row, data, apt, class as int));
}

/// The total that is shown for the dual-apartment department where it has
/// records in both apartments is the sum of its totals in the two, where
/// all its records lie in these two.
pub proof fn lemma_dual_total(data: Seq<ProcessedRecordView>)
    requires
        forall|i: int|
            0 <= i < data.len() && is_dual(record_key(#[trigger] data[i])) ==> data[i].apartment
                == 1 || data[i].apartment == 2,
    ensures
        total(members(data, None, department(dual_key()))) == total(
            members(data, Some(1u8), department(dual_key())),
        ) + total(members(data, Some(2u8), department(dual_key()))),
{
    assert forall|i: int|
        0 <= i < data.len() && belongs(#[trigger] data[i], department(dual_key())) implies data[i].apartment
            == 1 || data[i].apartment == 2 by {
        assert(is_dual(record_key(data[i])));
    }
    lemma_total_over_both_apartments(data, department(dual_key()));
}

/// The totals of some departments are finitely many, and they are the
/// totals of these departments.
pub proof fn lemma_key_totals(data: Seq<ProcessedRecordView>, keys: Seq<DeptKeyView>)
    ensures
        key_totals(data, keys).finite(),
        forall|t: int|
            #![trigger key_totals(data, keys).contains(t)]
            key_totals(data, keys).contains(t) <==> exists|i: int|
                0 <= i < keys.len() && total(members(data, None, department(#[trigger] keys[i])))
                    == t,
    decreases keys.len(),
{
    if keys.len() > 0 {
        let rest = keys.drop_last();
        lemma_key_totals(data, rest);
        assert forall|t: int|
            #![trigger key_totals(data, keys).contains(t)]
            key_totals(data, keys).contains(t) <==> exists|i: int|
                0 <= i < keys.len() && total(members(data, None, department(#[trigger] keys[i])))
                    == t by {
            if key_totals(data, keys).contains(t) {
                if key_totals(data, rest).contains(t) {
                    let i = choose|i: int|
                        0 <= i < rest.len() && total(
                            members(data, None, department(#[trigger] rest[i])),
                        ) == t;
                    assert(keys[i] == rest[i]);
                } else {
                    assert(total(members(data, None, department(keys[keys.len() - 1]))) == t);
                }
            }
            if exists|i: int|
                0 <= i < keys.len() && total(members(data, None, department(#[trigger] keys[i])))
                    == t {
                let i = choose|i: int|
                    0 <= i < keys.len() && total(
                        members(data, None, department(#[trigger] keys[i])),
                    ) == t;
                if i < rest.len() {
                    assert(rest[i] == keys[i]);
                }
            }
        }
    }
}

/// The totals among which departments are ranked are finitely many: the
/// total over all apartments of every department of the roster and of every
/// department that a record names.
pub proof fn lemma_department_totals(
    data: Seq<ProcessedRecordView>,
    roster: Seq<DepartmentRecordView>,
    k: DeptKeyView,
)
    ensures
        department_totals(data, roster).finite(),
        on_roster(roster, k, roster.len() as int) || brought(data, k, None, data.len() as int)
            ==> department_totals(data, roster).contains(
            total(members(data, None, department(k))),
        ),
{
    let keys = department_keys(data, roster, None, data.len() as int);
    lemma_key_totals(data, keys);
    lemma_department_keys(data, roster, None, data.len() as int);
    if on_roster(roster, k, roster.len() as int) || brought(data, k, None, data.len() as int) {
        assert(keys.contains(k));
        let i = choose|i: int| 0 <= i < keys.len() && keys[i] == k;
        assert(total(members(data, None, department(keys[i]))) == total(
            members(data, None, department(k)),
        ));
    }
}

/// Where no record gains points, a department without records ranks first,
/// together with every other department without records.
pub proof fn lemma_department_without_records_ranks_first(
    data: Seq<ProcessedRecordView>,
    roster: Seq<DepartmentRecordView>,
    k: DeptKeyView,
)
    requires
        forall|i: int| 0 <= i < data.len() ==> (#[trigger] data[i]).deduction <= 0,
        members(data, None, department(k)).len() == 0,
    ensures
        department_rank(data, roster, k) == 1,
{
    let keys = department_keys(data, roster, None, data.len() as int);
    let totals = department_totals(data, roster);
    lemma_key_totals(data, keys);
    lemma_total_not_positive(members(data, None, department(k)));
    assert forall|v: int| totals.contains(v) implies v <= 0 by {
        let i = choose|i: int|
            0 <= i < keys.len() && total(members(data, None, department(#[trigger] keys[i])))
                == v;
        let group = members(data, None, department(keys[i]));
        assert forall|j: int| 0 <= j < group.len() implies (#[trigger] group[j]).deduction <= 0 by {
            lemma_members_are_records(data, None, department(keys[i]), j);
            let x = choose|x: int| 0 <= x < data.len() && data[x] == group[j];
            assert(data[x].deduction <= 0);
        }
        lemma_total_not_positive(group);
    }
    lemma_rank_bounds(totals, 0);
}

} // verus!
