//! The manager table: records grouped by apartment, then by dormitory
//! manager.
//!
//! The managers of an apartment are those that the manager roster lists for
//! it and those that its records name.

use vstd::prelude::*;
use vstd::string::*;
use crate::group::{
    by_dorm, group_height, lemma_total_bounds, members, select, sort_by_dorm, total, total_of,
    GroupKey, GroupView,
};
use crate::model::{ApartmentRecord, ApartmentRecordView, ProcessedRecord, ProcessedRecordView};
use crate::order::{
    arrange, lemma_arrange_keeps_items, lemma_stable_order, pick, sort_positions, stable_order,
};
use crate::rank::{dense_rank, RankScale};
use crate::sheet::{
    advance, merge_or_write_num, merge_or_write_str, merged, number_cell, put_merge, put_number,
    put_text, span_number, span_text, text_cell, Instruction, InstructionView, LayoutError, Style,
    Table,
};
use crate::text::{apt_display_name, apt_label, decimal, decimal_string, dorm_display, dorm_label};

verus! {

/// The group of a manager.
pub open spec fn manager(name: Seq<char>) -> GroupView {
    GroupView::Manager { name }
}

/// Adds a name to a list of distinct names, at its end.
pub open spec fn add_name(names: Seq<Seq<char>>, name: Seq<char>) -> Seq<Seq<char>> {
    if names.contains(name) {
        names
    } else {
        names.push(name)
    }
}

/// The managers that the first `n` roster rows list for an apartment, in the
/// order in which they first appear.
pub open spec fn roster_names(managers: Seq<ApartmentRecordView>, apt: u8, n: int) -> Seq<
    Seq<char>,
>
    decreases n,
{
    if n <= 0 {
        Seq::empty()
    } else {
        let names = roster_names(managers, apt, n - 1);
        if managers[n - 1].apartment == apt {
            add_name(names, managers[n - 1].manager)
        } else {
            names
        }
    }
}

/// The managers of an apartment: those of the roster, then those that the
/// first `m` records name, in the order in which they first appear.
pub open spec fn manager_names(
    data: Seq<ProcessedRecordView>,
    managers: Seq<ApartmentRecordView>,
    apt: u8,
    m: int,
) -> Seq<Seq<char>>
    decreases m,
{
    if m <= 0 {
        roster_names(managers, apt, managers.len() as int)
    } else {
        let names = manager_names(data, managers, apt, m - 1);
        if data[m - 1].apartment == apt {
            add_name(names, data[m - 1].manager)
        } else {
            names
        }
    }
}

/// The lowest floor that the roster gives a manager in an apartment.
pub open spec fn serviced_floor(managers: Seq<ApartmentRecordView>, apt: u8, name: Seq<char>)
    -> Option<u8>
    decreases managers.len(),
{
    if managers.len() == 0 {
        None
    } else {
        let rest = serviced_floor(managers.drop_last(), apt, name);
        let e = managers.last();
        if e.apartment == apt && e.manager == name {
            match rest {
                Some(f) => if e.floor < f {
                    Some(e.floor)
                } else {
                    rest
                },
                None => Some(e.floor),
            }
        } else {
            rest
        }
    }
}

/// The floor by which a manager is placed: the lowest floor that the roster
/// gives, and floor 99 for a manager that the roster does not list.
pub open spec fn display_floor(managers: Seq<ApartmentRecordView>, apt: u8, name: Seq<char>)
    -> int {
    match serviced_floor(managers, apt, name) {
        Some(f) => f as int,
        None => 99,
    }
}

/// The total of a manager within an apartment.
pub open spec fn manager_total(data: Seq<ProcessedRecordView>, apt: u8, name: Seq<char>) -> int {
    total(members(data, Some(apt), manager(name)))
}

/// The managers of an apartment in the order in which they are shown: by
/// floor; on one floor the better total first; and with equal totals in the
/// order in which they first appear.
pub open spec fn display_order(
    data: Seq<ProcessedRecordView>,
    managers: Seq<ApartmentRecordView>,
    apt: u8,
) -> Seq<Seq<char>> {
    let names = manager_names(data, managers, apt, data.len() as int);
    let by_total = arrange(
        names,
        stable_order(names.map_values(|n: Seq<char>| -manager_total(data, apt, n))),
    );
    arrange(
        by_total,
        stable_order(by_total.map_values(|n: Seq<char>| display_floor(managers, apt, n))),
    )
}

/// The totals of some managers within an apartment.
pub open spec fn name_totals(data: Seq<ProcessedRecordView>, apt: u8, names: Seq<Seq<char>>)
    -> Set<int>
    decreases names.len(),
{
    if names.len() == 0 {
        Set::empty()
    } else {
        name_totals(data, apt, names.drop_last()).insert(manager_total(data, apt, names.last()))
    }
}

/// The totals among which the managers of an apartment are ranked.
pub open spec fn manager_totals(
    data: Seq<ProcessedRecordView>,
    managers: Seq<ApartmentRecordView>,
    apt: u8,
) -> Set<int> {
    name_totals(data, apt, manager_names(data, managers, apt, data.len() as int))
}

/// The rank of a manager: that of the manager's total among the managers of
/// the apartment.
pub open spec fn manager_rank(
    data: Seq<ProcessedRecordView>,
    managers: Seq<ApartmentRecordView>,
    apt: u8,
    name: Seq<char>,
) -> int {
    dense_rank(manager_totals(data, managers, apt), manager_total(data, apt, name))
}

/// The cells of one record's row: dormitory, reason and deduction.
pub open spec fn manager_dorm_row(row: int, r: ProcessedRecordView) -> Seq<InstructionView> {
    seq![
        text_cell(row, 2, dorm_label(r.dorm), Style::Cell),
        merged(row, 3, row, 4, r.reason, Style::Cell),
        number_cell(row, 5, r.deduction as int, Style::Cell),
    ]
}

/// The rows of some records, one below the other from `row` on.
pub open spec fn manager_dorm_rows(row: int, records: Seq<ProcessedRecordView>) -> Seq<
    InstructionView,
>
    decreases records.len(),
{
    if records.len() == 0 {
        Seq::empty()
    } else {
        manager_dorm_rows(row, records.drop_last()) + manager_dorm_row(
            row + records.len() - 1,
            records.last(),
        )
    }
}

/// The row of a manager without records: the name, fillers, the rank.
pub open spec fn manager_placeholder(row: int, name: Seq<char>, rank: int) -> Seq<
    InstructionView,
> {
    seq![
        text_cell(row, 1, name, Style::Cell),
        text_cell(row, 2, "/"@, Style::Cell),
        merged(row, 3, row, 4, "/"@, Style::Cell),
        text_cell(row, 5, "/"@, Style::Cell),
        merged(row, 6, row, 7, "/"@, Style::Cell),
        number_cell(row, 8, rank, Style::Cell),
    ]
}

/// The instructions of a manager's group from `row` on: a placeholder row
/// for a manager without records; otherwise the records by dormitory, and
/// name, total and rank shown once for them.
pub open spec fn manager_group(
    row: int,
    name: Seq<char>,
    records: Seq<ProcessedRecordView>,
    rank: int,
) -> Seq<InstructionView> {
    if records.len() == 0 {
        manager_placeholder(row, name, rank)
    } else {
        let last = row + records.len() - 1;
        manager_dorm_rows(row, by_dorm(records)) + seq![
            span_text(row, last, 1, name, Style::Cell),
            merged(row, 6, last, 7, decimal(total(records)), Style::Cell),
            span_number(row, last, 8, rank, Style::Cell),
        ]
    }
}

/// The number of rows of the groups of some managers of an apartment.
pub open spec fn manager_groups_height(
    data: Seq<ProcessedRecordView>,
    apt: u8,
    names: Seq<Seq<char>>,
) -> int
    decreases names.len(),
{
    if names.len() == 0 {
        0
    } else {
        manager_groups_height(data, apt, names.drop_last()) + group_height(
            members(data, Some(apt), manager(names.last())),
        )
    }
}

/// The groups of some managers of an apartment, in the order given, from
/// `row` on; ranks are taken among `totals`.
pub open spec fn manager_groups(
    row: int,
    data: Seq<ProcessedRecordView>,
    totals: Set<int>,
    apt: u8,
    names: Seq<Seq<char>>,
) -> Seq<InstructionView>
    decreases names.len(),
{
    if names.len() == 0 {
        Seq::empty()
    } else {
        manager_groups(row, data, totals, apt, names.drop_last()) + manager_group(
            row + manager_groups_height(data, apt, names.drop_last()),
            names.last(),
            members(data, Some(apt), manager(names.last())),
            dense_rank(totals, manager_total(data, apt, names.last())),
        )
    }
}

/// The number of rows of the block of an apartment.
pub open spec fn manager_block_height(
    data: Seq<ProcessedRecordView>,
    managers: Seq<ApartmentRecordView>,
    apt: u8,
) -> int {
    manager_groups_height(data, apt, display_order(data, managers, apt))
}

/// The block of an apartment from `row` on: the groups of its managers,
/// then the apartment's label shown once for all rows of the block. An
/// apartment without managers has no block.
pub open spec fn manager_block(
    row: int,
    data: Seq<ProcessedRecordView>,
    managers: Seq<ApartmentRecordView>,
    apt: u8,
) -> Seq<InstructionView> {
    let height = manager_block_height(data, managers, apt);
    let groups = manager_groups(
        row,
        data,
        manager_totals(data, managers, apt),
        apt,
        display_order(data, managers, apt),
    );
    if height > 0 {
        groups.push(span_text(row, row + height - 1, 0, apt_label(apt), Style::Cell))
    } else {
        groups
    }
}

/// The number of rows of the blocks of the apartments with numbers below `n`.
pub open spec fn manager_blocks_height(
    data: Seq<ProcessedRecordView>,
    managers: Seq<ApartmentRecordView>,
    n: int,
) -> int
    decreases n,
{
    if n <= 0 {
        0
    } else {
        manager_blocks_height(data, managers, n - 1) + manager_block_height(
            data,
            managers,
            (n - 1) as u8,
        )
    }
}

/// The blocks of the apartments with numbers below `n`, in ascending order
/// of number, from `row` on.
pub open spec fn manager_blocks(
    row: int,
    data: Seq<ProcessedRecordView>,
    managers: Seq<ApartmentRecordView>,
    n: int,
) -> Seq<InstructionView>
    decreases n,
{
    if n <= 0 {
        Seq::empty()
    } else {
        manager_blocks(row, data, managers, n - 1) + manager_block(
            row + manager_blocks_height(data, managers, n - 1),
            data,
            managers,
            (n - 1) as u8,
        )
    }
}

/// The column headers of the manager table.
pub open spec fn table2_headers(row: int) -> Seq<InstructionView> {
    seq![
        text_cell(row, 0, "公寓"@, Style::Header),
        text_cell(row, 1, "宿舍管理员"@, Style::Header),
        text_cell(row, 2, "宿舍号"@, Style::Header),
        merged(row, 3, row, 4, "扣分原因"@, Style::Header),
        text_cell(row, 5, "扣分"@, Style::Header),
        merged(row, 6, row, 7, "总扣分"@, Style::Header),
        text_cell(row, 8, "排名"@, Style::Header),
    ]
}

/// The manager table from `start_row` on: the column headers, then the
/// blocks of the apartments in ascending order.
pub open spec fn manager_table(
    start_row: int,
    data: Seq<ProcessedRecordView>,
    managers: Seq<ApartmentRecordView>,
) -> Seq<InstructionView> {
    table2_headers(start_row) + manager_blocks(start_row + 1, data, managers, 256)
}

/// The first row below the manager table.
pub open spec fn manager_table_end(
    start_row: int,
    data: Seq<ProcessedRecordView>,
    managers: Seq<ApartmentRecordView>,
) -> int {
    start_row + 1 + manager_blocks_height(data, managers, 256)
}

/// Rows only grow from group to group.
proof fn lemma_manager_groups_grow(
    data: Seq<ProcessedRecordView>,
    apt: u8,
    names: Seq<Seq<char>>,
    j: int,
)
    requires
        0 <= j <= names.len(),
    ensures
        0 <= manager_groups_height(data, apt, names.take(j)) <= manager_groups_height(
            data,
            apt,
            names,
        ),
    decreases names.len(),
{
    if j == names.len() {
        assert(names.take(j) =~= names);
        if j > 0 {
            lemma_manager_groups_grow(data, apt, names.drop_last(), j - 1);
        }
    } else {
        assert(names.drop_last().take(j) =~= names.take(j));
        lemma_manager_groups_grow(data, apt, names.drop_last(), j);
    }
}

/// Rows only grow from block to block.
pub(crate) proof fn lemma_manager_blocks_grow(
    data: Seq<ProcessedRecordView>,
    managers: Seq<ApartmentRecordView>,
    n: int,
    m: int,
)
    requires
        0 <= n <= m,
    ensures
        0 <= manager_blocks_height(data, managers, n) <= manager_blocks_height(data, managers, m),
    decreases m,
{
    if m > 0 {
        let names = display_order(data, managers, (m - 1) as u8);
        lemma_manager_groups_grow(data, (m - 1) as u8, names, 0);
        if n < m {
            lemma_manager_blocks_grow(data, managers, n, m - 1);
        } else {
            lemma_manager_blocks_grow(data, managers, n - 1, m - 1);
        }
    }
}

/// Whether a list of names holds a name.
pub fn has_name(names: &Vec<&String>, name: &String) -> (found: bool)
    ensures
        found == names.deep_view().contains(name@),
{
    let ghost all = names.deep_view();
    let mut i: usize = 0;
    while i < names.len()
        invariant
            i <= names.len(),
            all == names.deep_view(),
            forall|j: int| 0 <= j < i ==> all[j] != name@,
        decreases names.len() - i,
    {
        if *names[i] == *name {
            assert(all[i as int] == name@);
            return true;
        }
        i = i + 1;
    }
    false
}

/// Collects the managers of an apartment in the order in which they first
/// appear, in the roster and then in the records.
pub fn collect_names<'a>(data: &'a [ProcessedRecord], managers: &'a [ApartmentRecord], apt: u8)
    -> (names: Vec<&'a String>)
    ensures
        names.deep_view() == manager_names(
            data.deep_view(),
            managers.deep_view(),
            apt,
            data@.len() as int,
        ),
        names@.len() <= managers@.len() + data@.len(),
{
    let ghost records = data.deep_view();
    let ghost rows = managers.deep_view();
    let mut names: Vec<&'a String> = Vec::new();
    let mut i: usize = 0;
    assert(names.deep_view() =~= roster_names(rows, apt, 0));
    while i < managers.len()
        invariant
            i <= managers.len(),
            rows == managers.deep_view(),
            names.deep_view() == roster_names(rows, apt, i as int),
            names@.len() <= i,
        decreases managers.len() - i,
    {
        let e = &managers[i];
        assert(rows[i as int] == e.deep_view());
        if e.apartment == apt && !has_name(&names, &e.manager) {
            let ghost before = names.deep_view();
            names.push(&e.manager);
            assert(names.deep_view() =~= before.push(e.manager@));
        }
        i = i + 1;
    }
    let mut j: usize = 0;
    while j < data.len()
        invariant
            j <= data.len(),
            records == data.deep_view(),
            rows == managers.deep_view(),
            names.deep_view() == manager_names(records, rows, apt, j as int),
            names@.len() <= managers@.len() + j,
        decreases data.len() - j,
    {
        let r = &data[j];
        assert(records[j as int] == r.deep_view());
        if r.apartment == apt && !has_name(&names, &r.manager) {
            let ghost before = names.deep_view();
            names.push(&r.manager);
            assert(names.deep_view() =~= before.push(r.manager@));
        }
        j = j + 1;
    }
    names
}

/// Finds the lowest floor that the roster gives a manager in an apartment.
pub fn lowest_floor(managers: &[ApartmentRecord], apt: u8, name: &String) -> (floor: Option<u8>)
    ensures
        floor == serviced_floor(managers.deep_view(), apt, name@),
{
    let ghost rows = managers.deep_view();
    let mut floor: Option<u8> = None;
    let mut i: usize = 0;
    while i < managers.len()
        invariant
            i <= managers.len(),
            rows == managers.deep_view(),
            floor == serviced_floor(rows.take(i as int), apt, name@),
        decreases managers.len() - i,
    {
        let e = &managers[i];
        proof {
            assert(rows.take(i + 1).drop_last() =~= rows.take(i as int));
            assert(rows.take(i + 1).last() == e.deep_view());
        }
        if e.apartment == apt && e.manager == *name {
            floor = match floor {
                Some(f) => if e.floor < f {
                    Some(e.floor)
                } else {
                    floor
                },
                None => Some(e.floor),
            };
        }
        i = i + 1;
    }
    assert(rows.take(i as int) =~= rows);
    floor
}

/// Sums the deductions of a manager's records within an apartment.
fn manager_total_of(data: &[ProcessedRecord], apt: u8, name: &String) -> (sum: i64)
    requires
        data@.len() <= u32::MAX,
    ensures
        sum == manager_total(data.deep_view(), apt, name@),
        -0x8000_0000 * data@.len() <= sum <= 0x8000_0000 * data@.len(),
{
    let group = GroupKey::Manager { name };
    let records = select(data, Some(apt), &group);
    proof {
        lemma_total_bounds(records.deep_view());
        assert(records.deep_view().len() == records@.len());
        assert(0x8000_0000 * records@.len() <= 0x8000_0000 * data@.len()) by (nonlinear_arith)
            requires
                records@.len() <= data@.len(),
        ;
    }
    total_of(&records)
}

/// Puts the managers of an apartment in the order in which they are shown.
pub fn order_managers<'a>(
    data: &'a [ProcessedRecord],
    managers: &'a [ApartmentRecord],
    apt: u8,
) -> (shown: Vec<&'a String>)
    requires
        data@.len() <= u32::MAX,
    ensures
        shown.deep_view() == display_order(data.deep_view(), managers.deep_view(), apt),
{
    let names = collect_names(data, managers, apt);
    arrange_managers(data, managers, apt, &names)
}

/// Puts the collected managers of an apartment in the order in which they
/// are shown.
fn arrange_managers<'a>(
    data: &[ProcessedRecord],
    managers: &[ApartmentRecord],
    apt: u8,
    names: &Vec<&'a String>,
) -> (shown: Vec<&'a String>)
    requires
        data@.len() <= u32::MAX,
        names.deep_view() == manager_names(
            data.deep_view(),
            managers.deep_view(),
            apt,
            data@.len() as int,
        ),
    ensures
        shown.deep_view() == display_order(data.deep_view(), managers.deep_view(), apt),
        shown@.len() == names@.len(),
{
    let ghost records = data.deep_view();
    let ghost rows = managers.deep_view();
    let ghost all = names.deep_view();
    let ghost worse = |n: Seq<char>| -manager_total(records, apt, n);
    let mut keys: Vec<i64> = Vec::new();
    let mut i: usize = 0;
    while i < names.len()
        invariant
            i <= names.len(),
            records == data.deep_view(),
            data@.len() <= u32::MAX,
            all == names.deep_view(),
            worse == |n: Seq<char>| -manager_total(records, apt, n),
            keys@.len() == i,
            forall|j: int| 0 <= j < i ==> #[trigger] keys@[j] as int == worse(all[j]),
        decreases names.len() - i,
    {
        let sum = manager_total_of(data, apt, names[i]);
        assert(all[i as int] == names@[i as int]@);
        keys.push(-sum);
        i = i + 1;
    }
    assert(keys@.map_values(|k: i64| k as int) =~= all.map_values(worse));
    let order = sort_positions(&keys);
    let by_total = pick(names, &order);
    let ghost ranked = by_total.deep_view();
    let ghost floor = |n: Seq<char>| display_floor(rows, apt, n);
    let mut floors: Vec<i64> = Vec::new();
    let mut j: usize = 0;
    while j < by_total.len()
        invariant
            j <= by_total.len(),
            rows == managers.deep_view(),
            ranked == by_total.deep_view(),
            floor == |n: Seq<char>| display_floor(rows, apt, n),
            floors@.len() == j,
            forall|k: int| 0 <= k < j ==> #[trigger] floors@[k] as int == floor(ranked[k]),
        decreases by_total.len() - j,
    {
        let f: i64 = match lowest_floor(managers, apt, by_total[j]) {
            Some(f) => f as i64,
            None => 99,
        };
        assert(ranked[j as int] == by_total@[j as int]@);
        floors.push(f);
        j = j + 1;
    }
    assert(floors@.map_values(|k: i64| k as int) =~= ranked.map_values(floor));
    let order = sort_positions(&floors);
    pick(&by_total, &order)
}

/// Builds the scale on which some managers of an apartment are ranked.
fn manager_scale(data: &[ProcessedRecord], apt: u8, names: &Vec<&String>) -> (scale:
    RankScale)
    requires
        data@.len() <= u32::MAX,
    ensures
        scale.wf(),
        scale@ == name_totals(data.deep_view(), apt, names.deep_view()),
        scale@.len() <= names@.len(),
{
    let ghost records = data.deep_view();
    let ghost all = names.deep_view();
    let mut scale = RankScale::new();
    let mut i: usize = 0;
    assert(all.take(0) =~= Seq::<Seq<char>>::empty());
    while i < names.len()
        invariant
            i <= names.len(),
            records == data.deep_view(),
            data@.len() <= u32::MAX,
            all == names.deep_view(),
            scale.wf(),
            scale@ == name_totals(records, apt, all.take(i as int)),
            scale@.len() <= i,
        decreases names.len() - i,
    {
        let sum = manager_total_of(data, apt, names[i]);
        proof {
            assert(all.take(i + 1).drop_last() =~= all.take(i as int));
            assert(all.take(i + 1).last() == names@[i as int]@);
        }
        scale.add(sum);
        i = i + 1;
    }
    assert(all.take(i as int) =~= all);
    scale
}

/// Writes the cells of one record's row.
pub fn write_manager_dorm_row(ws: &mut Vec<Instruction>, row: u32, r: &ProcessedRecord)
    ensures
        final(ws).deep_view() == old(ws).deep_view() + manager_dorm_row(row as int, r.deep_view()),
{
    put_text(ws, row, 2, dorm_display(r.dorm), Style::Cell);
    put_merge(ws, row, 3, row, 4, r.reason.clone(), Style::Cell);
    put_number(ws, row, 5, r.deduction as i64, Style::Cell);
    assert(final(ws).deep_view() =~= old(ws).deep_view() + manager_dorm_row(
        row as int,
        r.deep_view(),
    ));
}

/// Writes the rows of some records, one below the other from `row` on.
fn write_manager_dorm_rows(
    ws: &mut Vec<Instruction>,
    row: u32,
    records: &Vec<&ProcessedRecord>,
)
    requires
        row + records@.len() <= u32::MAX,
    ensures
        final(ws).deep_view() == old(ws).deep_view() + manager_dorm_rows(
            row as int,
            records.deep_view(),
        ),
{
    let ghost all = records.deep_view();
    let mut i: usize = 0;
    assert(ws.deep_view() =~= old(ws).deep_view() + manager_dorm_rows(row as int, all.take(0)));
    while i < records.len()
        invariant
            i <= records.len(),
            row + records@.len() <= u32::MAX,
            all == records.deep_view(),
            ws.deep_view() == old(ws).deep_view() + manager_dorm_rows(
                row as int,
                all.take(i as int),
            ),
        decreases records.len() - i,
    {
        write_manager_dorm_row(ws, row + i as u32, records[i]);
        proof {
            assert(all.take(i + 1).drop_last() =~= all.take(i as int));
            assert(all.take(i + 1).last() == records@[i as int].deep_view());
            assert(ws.deep_view() =~= old(ws).deep_view() + manager_dorm_rows(
                row as int,
                all.take(i + 1),
            ));
        }
        i = i + 1;
    }
    assert(all.take(i as int) =~= all);
}

/// Writes a manager's group from `row` on and returns the row below it, or
/// nothing, with the sheet untouched, where the row numbers do not reach that
/// far.
pub fn write_manager_group(
    ws: &mut Vec<Instruction>,
    row: u32,
    name: &String,
    records: &Vec<&ProcessedRecord>,
    rank: i64,
) -> (next: Option<u32>)
    ensures
        match next {
            Some(n) => {
                &&& n == row + group_height(records.deep_view())
                &&& final(ws).deep_view() == old(ws).deep_view() + manager_group(
                    row as int,
                    name@,
                    records.deep_view(),
                    rank as int,
                )
            },
            None => row + group_height(records.deep_view()) > u32::MAX && final(ws)@ == old(ws)@,
        },
{
    let height: usize = if records.len() == 0 {
        1
    } else {
        records.len()
    };
    let next = match advance(row, height) {
        Some(n) => n,
        None => {
            return None;
        },
    };
    if records.len() == 0 {
        put_text(ws, row, 1, name.clone(), Style::Cell);
        put_text(ws, row, 2, String::from_str("/"), Style::Cell);
        put_merge(ws, row, 3, row, 4, String::from_str("/"), Style::Cell);
        put_text(ws, row, 5, String::from_str("/"), Style::Cell);
        put_merge(ws, row, 6, row, 7, String::from_str("/"), Style::Cell);
        put_number(ws, row, 8, rank, Style::Cell);
        assert(final(ws).deep_view() =~= old(ws).deep_view() + manager_placeholder(
            row as int,
            name@,
            rank as int,
        ));
    } else {
        let sorted = sort_by_dorm(records);
        let sum = total_of(records);
        write_manager_dorm_rows(ws, row, &sorted);
        let end = next - 1;
        merge_or_write_str(ws, row, end, 1, name.clone(), Style::Cell);
        put_merge(ws, row, 6, end, 7, decimal_string(sum), Style::Cell);
        merge_or_write_num(ws, row, end, 8, rank, Style::Cell);
        assert(final(ws).deep_view() =~= old(ws).deep_view() + manager_group(
            row as int,
            name@,
            records.deep_view(),
            rank as int,
        ));
    }
    Some(next)
}

/// Writes the block of an apartment from `row` on and returns the row below
/// it, or nothing where the row numbers do not reach that far.
fn write_manager_block(
    ws: &mut Vec<Instruction>,
    row: u32,
    data: &[ProcessedRecord],
    managers: &[ApartmentRecord],
    apt: u8,
) -> (next: Option<u32>)
    requires
        data@.len() <= u32::MAX,
        managers@.len() <= u32::MAX,
    ensures
        match next {
            Some(n) => {
                &&& n == row + manager_block_height(data.deep_view(), managers.deep_view(), apt)
                &&& final(ws).deep_view() == old(ws).deep_view() + manager_block(
                    row as int,
                    data.deep_view(),
                    managers.deep_view(),
                    apt,
                )
            },
            None => row + manager_block_height(data.deep_view(), managers.deep_view(), apt)
                > u32::MAX,
        },
{
    let ghost records = data.deep_view();
    let ghost rows = managers.deep_view();
    let ghost base = old(ws).deep_view();
    let names = collect_names(data, managers, apt);
    let scale = manager_scale(data, apt, &names);
    let shown = arrange_managers(data, managers, apt, &names);
    let ghost all = shown.deep_view();
    let ghost totals = manager_totals(records, rows, apt);
    let mut cur = row;
    let mut i: usize = 0;
    assert(all.take(0) =~= Seq::<Seq<char>>::empty());
    assert(ws.deep_view() =~= base + manager_groups(row as int, records, totals, apt, all.take(0)));
    while i < shown.len()
        invariant
            i <= shown.len(),
            records == data.deep_view(),
            rows == managers.deep_view(),
            base == old(ws).deep_view(),
            data@.len() <= u32::MAX,
            all == shown.deep_view(),
            all == display_order(records, rows, apt),
            totals == manager_totals(records, rows, apt),
            scale.wf(),
            scale@ == totals,
            scale@.len() < i64::MAX,
            ws.deep_view() == base + manager_groups(
                row as int,
                records,
                totals,
                apt,
                all.take(i as int),
            ),
            cur == row + manager_groups_height(records, apt, all.take(i as int)),
        decreases shown.len() - i,
    {
        let name = shown[i];
        let group = GroupKey::Manager { name };
        let records_of = select(data, Some(apt), &group);
        let rank = scale.rank_of(total_of(&records_of));
        proof {
            assert(all.take(i + 1).drop_last() =~= all.take(i as int));
            assert(all.take(i + 1).last() == name@);
            assert(records_of.deep_view().len() == records_of@.len());
        }
        match write_manager_group(ws, cur, name, &records_of, rank) {
            Some(n) => {
                cur = n;
            },
            None => {
                proof {
                    lemma_manager_groups_grow(records, apt, all, i + 1);
                    assert(manager_groups_height(records, apt, all.take(i + 1)) == cur - row
                        + group_height(records_of.deep_view()));
                }
                return None;
            },
        }
        assert(ws.deep_view() =~= base + manager_groups(
            row as int,
            records,
            totals,
            apt,
            all.take(i + 1),
        ));
        i = i + 1;
    }
    assert(all.take(i as int) =~= all);
    if cur > row {
        merge_or_write_str(ws, row, cur - 1, 0, apt_display_name(apt), Style::Cell);
    }
    Some(cur)
}

/// Writes the column headers of the manager table.
pub fn write_table2_headers(ws: &mut Vec<Instruction>, row: u32)
    ensures
        final(ws).deep_view() == old(ws).deep_view() + table2_headers(row as int),
{
    put_text(ws, row, 0, String::from_str("公寓"), Style::Header);
    put_text(ws, row, 1, String::from_str("宿舍管理员"), Style::Header);
    put_text(ws, row, 2, String::from_str("宿舍号"), Style::Header);
    put_merge(ws, row, 3, row, 4, String::from_str("扣分原因"), Style::Header);
    put_text(ws, row, 5, String::from_str("扣分"), Style::Header);
    put_merge(ws, row, 6, row, 7, String::from_str("总扣分"), Style::Header);
    put_text(ws, row, 8, String::from_str("排名"), Style::Header);
    assert(final(ws).deep_view() =~= old(ws).deep_view() + table2_headers(row as int));
}

/// Writes the manager table from `start_row` on.
///
/// The table opens with its column headers. A block follows for each
/// apartment that has a manager, in ascending order of apartment number.
pub fn write_table2(start_row: u32, data: &[ProcessedRecord], managers: &[ApartmentRecord]) -> (out:
    Result<Table, LayoutError>)
    requires
        data@.len() <= u32::MAX,
        managers@.len() <= u32::MAX,
    ensures
        match out {
            Ok(table) => {
                &&& table.instructions.deep_view() == manager_table(
                    start_row as int,
                    data.deep_view(),
                    managers.deep_view(),
                )
                &&& table.next_row == manager_table_end(
                    start_row as int,
                    data.deep_view(),
                    managers.deep_view(),
                )
            },
            Err(e) => manager_table_end(start_row as int, data.deep_view(), managers.deep_view())
                > u32::MAX,
        },
{
    let ghost records = data.deep_view();
    let ghost rows = managers.deep_view();
    proof {
        lemma_manager_blocks_grow(records, rows, 0, 256);
    }
    let first = match advance(start_row, 1) {
        Some(n) => n,
        None => {
            return Err(LayoutError::RowOverflow);
        },
    };
    let mut ws: Vec<Instruction> = Vec::new();
    write_table2_headers(&mut ws, start_row);
    let mut cur = first;
    let mut n: u16 = 0;
    assert(ws.deep_view() =~= table2_headers(start_row as int) + manager_blocks(
        first as int,
        records,
        rows,
        0,
    ));
    while n < 256
        invariant
            n <= 256,
            records == data.deep_view(),
            rows == managers.deep_view(),
            data@.len() <= u32::MAX,
            managers@.len() <= u32::MAX,
            first == start_row + 1,
            ws.deep_view() == table2_headers(start_row as int) + manager_blocks(
                first as int,
                records,
                rows,
                n as int,
            ),
            cur == first + manager_blocks_height(records, rows, n as int),
        decreases 256 - n,
    {
        match write_manager_block(&mut ws, cur, data, managers, n as u8) {
            Some(next) => {
                cur = next;
            },
            None => {
                proof {
                    lemma_manager_blocks_grow(records, rows, n + 1, 256);
                    assert(manager_blocks_height(records, rows, n + 1) == manager_blocks_height(
                        records,
                        rows,
                        n as int,
                    ) + manager_block_height(records, rows, n as u8));
                }
                return Err(LayoutError::RowOverflow);
            },
        }
        assert(ws.deep_view() =~= table2_headers(start_row as int) + manager_blocks(
            first as int,
            records,
            rows,
            n + 1,
        ));
        n = n + 1;
    }
    Ok(Table { instructions: ws, next_row: cur })
}

/// Whether one of the first `n` roster rows lists a manager for an
/// apartment.
pub open spec fn on_manager_roster(
    managers: Seq<ApartmentRecordView>,
    apt: u8,
    name: Seq<char>,
    n: int,
) -> bool {
    exists|i: int|
        0 <= i < n && i < managers.len() && (#[trigger] managers[i]).apartment == apt
            && managers[i].manager == name
}

/// Whether one of the first `m` records names a manager in an apartment.
pub open spec fn named_by_record(
    data: Seq<ProcessedRecordView>,
    apt: u8,
    name: Seq<char>,
    m: int,
) -> bool {
    exists|j: int|
        0 <= j < m && j < data.len() && (#[trigger] data[j]).apartment == apt && data[j].manager
            == name
}

/// `add_name` keeps names distinct, and the list then holds the new name and
/// what it held before.
pub proof fn lemma_add_name(names: Seq<Seq<char>>, name: Seq<char>)
    requires
        names.no_duplicates(),
    ensures
        add_name(names, name).no_duplicates(),
        forall|x: Seq<char>|
            #![trigger add_name(names, name).contains(x)]
            #![trigger names.contains(x)]
            add_name(names, name).contains(x) <==> names.contains(x) || x == name,
{
    let out = add_name(names, name);
    if !names.contains(name) {
        assert forall|x: Seq<char>| out.contains(x) <==> names.contains(x) || x == name by {
            if out.contains(x) {
                let i = choose|i: int| 0 <= i < out.len() && out[i] == x;
                if i < names.len() {
                    assert(names[i] == x);
                }
            }
            if names.contains(x) {
                let i = choose|i: int| 0 <= i < names.len() && names[i] == x;
                assert(out[i] == x);
            }
            if x == name {
                assert(out[names.len() as int] == x);
            }
        }
        assert forall|a: int, b: int| 0 <= a < out.len() && 0 <= b < out.len() && a != b implies out[a]
            != out[b] by {
            if a < names.len() {
                assert(names.contains(names[a]));
            }
            if b < names.len() {
                assert(names.contains(names[b]));
            }
        }
    }
}

/// The managers that the roster lists for an apartment, each once.
pub proof fn lemma_roster_names(managers: Seq<ApartmentRecordView>, apt: u8, n: int)
    requires
        0 <= n <= managers.len(),
    ensures
        roster_names(managers, apt, n).no_duplicates(),
        forall|x: Seq<char>|
            #![trigger roster_names(managers, apt, n).contains(x)]
            roster_names(managers, apt, n).contains(x) <==> on_manager_roster(managers, apt, x, n),
    decreases n,
{
    if n > 0 {
        lemma_roster_names(managers, apt, n - 1);
        let before = roster_names(managers, apt, n - 1);
        lemma_add_name(before, managers[n - 1].manager);
        assert forall|x: Seq<char>|
            roster_names(managers, apt, n).contains(x) <==> on_manager_roster(
                managers,
                apt,
                x,
                n,
            ) by {
            if on_manager_roster(managers, apt, x, n) {
                let i = choose|i: int|
                    0 <= i < n && i < managers.len() && (#[trigger] managers[i]).apartment == apt
                        && managers[i].manager == x;
                if i < n - 1 {
                    assert(on_manager_roster(managers, apt, x, n - 1));
                }
            }
            if on_manager_roster(managers, apt, x, n - 1) {
                let i = choose|i: int|
                    0 <= i < n - 1 && i < managers.len() && (#[trigger] managers[i]).apartment
                        == apt && managers[i].manager == x;
                assert(0 <= i < n && managers[i].apartment == apt && managers[i].manager == x);
            }
            if managers[n - 1].apartment == apt && x == managers[n - 1].manager {
                assert(on_manager_roster(managers, apt, x, n));
            }
        }
    } else {
        assert forall|x: Seq<char>| !roster_names(managers, apt, n).contains(x) by {}
    }
}

/// The managers of an apartment are those that the roster lists for it and
/// those that its records name, each once.
pub proof fn lemma_manager_names(
    data: Seq<ProcessedRecordView>,
    managers: Seq<ApartmentRecordView>,
    apt: u8,
    m: int,
)
    requires
        0 <= m <= data.len(),
    ensures
        manager_names(data, managers, apt, m).no_duplicates(),
        forall|x: Seq<char>|
            #![trigger manager_names(data, managers, apt, m).contains(x)]
            manager_names(data, managers, apt, m).contains(x) <==> on_manager_roster(
                managers,
                apt,
                x,
                managers.len() as int,
            ) || named_by_record(data, apt, x, m),
    decreases m,
{
    if m > 0 {
        lemma_manager_names(data, managers, apt, m - 1);
        let before = manager_names(data, managers, apt, m - 1);
        lemma_add_name(before, data[m - 1].manager);
        assert forall|x: Seq<char>|
            manager_names(data, managers, apt, m).contains(x) <==> on_manager_roster(
                managers,
                apt,
                x,
                managers.len() as int,
            ) || named_by_record(data, apt, x, m) by {
            if named_by_record(data, apt, x, m) {
                let j = choose|j: int|
                    0 <= j < m && j < data.len() && (#[trigger] data[j]).apartment == apt
                        && data[j].manager == x;
                if j < m - 1 {
                    assert(named_by_record(data, apt, x, m - 1));
                }
            }
            if named_by_record(data, apt, x, m - 1) {
                let j = choose|j: int|
                    0 <= j < m - 1 && j < data.len() && (#[trigger] data[j]).apartment == apt
                        && data[j].manager == x;
                assert(0 <= j < m && data[j].apartment == apt && data[j].manager == x);
            }
            if data[m - 1].apartment == apt && x == data[m - 1].manager {
                assert(named_by_record(data, apt, x, m));
            }
        }
    } else {
        lemma_roster_names(managers, apt, managers.len() as int);
        assert forall|x: Seq<char>|
            manager_names(data, managers, apt, m).contains(x) <==> on_manager_roster(
                managers,
                apt,
                x,
                managers.len() as int,
            ) || named_by_record(data, apt, x, m) by {
            assert(!named_by_record(data, apt, x, m));
            assert(roster_names(managers, apt, managers.len() as int).contains(x)
                <==> on_manager_roster(managers, apt, x, managers.len() as int));
        }
    }
}

/// The managers are shown each once, by ascending floor whatever their
/// ranks are, and on one floor by descending total.
pub proof fn lemma_display_order(
    data: Seq<ProcessedRecordView>,
    managers: Seq<ApartmentRecordView>,
    apt: u8,
)
    ensures
        display_order(data, managers, apt).no_duplicates(),
        forall|x: Seq<char>|
            #![trigger display_order(data, managers, apt).contains(x)]
            display_order(data, managers, apt).contains(x) <==> on_manager_roster(
                managers,
                apt,
                x,
                managers.len() as int,
            ) || named_by_record(data, apt, x, data.len() as int),
        forall|a: int, b: int|
            0 <= a < b < display_order(data, managers, apt).len() ==> {
                let first = #[trigger] display_order(data, managers, apt)[a];
                let second = #[trigger] display_order(data, managers, apt)[b];
                display_floor(managers, apt, first) < display_floor(managers, apt, second) || (
                display_floor(managers, apt, first) == display_floor(managers, apt, second)
                    && manager_total(data, apt, first) >= manager_total(data, apt, second))
            },
{
    let names = manager_names(data, managers, apt, data.len() as int);
    let worse = names.map_values(|n: Seq<char>| -manager_total(data, apt, n));
    let first_order = stable_order(worse);
    let by_total = arrange(names, first_order);
    let floors = by_total.map_values(|n: Seq<char>| display_floor(managers, apt, n));
    let second_order = stable_order(floors);
    let shown = arrange(by_total, second_order);
    assert(shown == display_order(data, managers, apt));
    lemma_manager_names(data, managers, apt, data.len() as int);
    lemma_arrange_keeps_items(names, worse);
    lemma_arrange_keeps_items(by_total, floors);
    lemma_stable_order(worse);
    lemma_stable_order(floors);
    assert forall|x: Seq<char>|
        shown.contains(x) <==> on_manager_roster(managers, apt, x, managers.len() as int)
            || named_by_record(data, apt, x, data.len() as int) by {
        assert(shown.contains(x) <==> by_total.contains(x));
        assert(by_total.contains(x) <==> names.contains(x));
        assert(names.contains(x) <==> on_manager_roster(managers, apt, x, managers.len() as int)
            || named_by_record(data, apt, x, data.len() as int));
    }
    assert forall|a: int, b: int| 0 <= a < b < shown.len() implies {
        let first = #[trigger] shown[a];
        let second = #[trigger] shown[b];
        display_floor(managers, apt, first) < display_floor(managers, apt, second) || (
        display_floor(managers, apt, first) == display_floor(managers, apt, second)
            && manager_total(data, apt, first) >= manager_total(data, apt, second))
    } by {
        let p = second_order[a];
        let q = second_order[b];
        assert(floors[p] < floors[q] || (floors[p] == floors[q] && p < q));
        if floors[p] == floors[q] {
            assert(worse[first_order[p]] < worse[first_order[q]] || (worse[first_order[p]]
                == worse[first_order[q]] && first_order[p] < first_order[q]));
        }
    }
}

} // verus!
