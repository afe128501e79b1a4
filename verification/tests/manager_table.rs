use dorm_report::manager_table::{collect_names, lowest_floor, order_managers, write_table2};
use dorm_report::model::{ApartmentRecord, ProcessedRecord};
use dorm_report::sheet::{Instruction, LayoutError, Style};

fn rec(apartment: u8, manager: &str, dorm: u16, reason: &str) -> ProcessedRecord {
    ProcessedRecord {
        apartment,
        grade: 1,
        class: 1,
        dept: "A".to_string(),
        teacher: "T".to_string(),
        manager: manager.to_string(),
        dorm,
        reason: reason.to_string(),
        deduction: -1,
    }
}

fn mgr(apartment: u8, floor: u8, manager: &str) -> ApartmentRecord {
    ApartmentRecord { apartment, floor, manager: manager.to_string() }
}

fn text(row: u32, col: u16, value: &str) -> Instruction {
    Instruction::WriteText { row, col, value: value.to_string(), style: Style::Cell }
}

fn head(row: u32, col: u16, value: &str) -> Instruction {
    Instruction::WriteText { row, col, value: value.to_string(), style: Style::Header }
}

fn number(row: u32, col: u16, number: i64) -> Instruction {
    Instruction::WriteNumber { row, col, number, style: Style::Cell }
}

fn merge(r0: u32, c0: u16, r1: u32, c1: u16, value: &str, style: Style) -> Instruction {
    Instruction::MergeRange {
        first_row: r0,
        first_col: c0,
        last_row: r1,
        last_col: c1,
        value: value.to_string(),
        style,
    }
}

fn cell(r0: u32, c0: u16, r1: u32, c1: u16, value: &str) -> Instruction {
    merge(r0, c0, r1, c1, value, Style::Cell)
}

fn headers(row: u32) -> Vec<Instruction> {
    vec![
        head(row, 0, "公寓"),
        head(row, 1, "宿舍管理员"),
        head(row, 2, "宿舍号"),
        merge(row, 3, row, 4, "扣分原因", Style::Header),
        head(row, 5, "扣分"),
        merge(row, 6, row, 7, "总扣分", Style::Header),
        head(row, 8, "排名"),
    ]
}

fn dorm_row(row: u32, r: &ProcessedRecord) -> Vec<Instruction> {
    vec![
        text(row, 2, &format!("{}宿舍", r.dorm)),
        cell(row, 3, row, 4, &r.reason),
        number(row, 5, -1),
    ]
}

fn placeholder(row: u32, name: &str, rank: i64) -> Vec<Instruction> {
    vec![
        text(row, 1, name),
        text(row, 2, "/"),
        cell(row, 3, row, 4, "/"),
        text(row, 5, "/"),
        cell(row, 6, row, 7, "/"),
        number(row, 8, rank),
    ]
}

#[test]
fn managers_are_shown_by_floor_whatever_their_rank() {
    let roster = vec![mgr(1, 1, "M1"), mgr(1, 2, "M2")];
    let data = vec![rec(1, "M1", 105, "late"), rec(1, "M1", 101, "early")];
    let table = write_table2(0, &data, &roster).unwrap();
    let mut want = headers(0);
    want.extend(dorm_row(1, &data[1]));
    want.extend(dorm_row(2, &data[0]));
    want.push(cell(1, 1, 2, 1, "M1"));
    want.push(cell(1, 6, 2, 7, "-2"));
    want.push(cell(1, 8, 2, 8, "2"));
    want.extend(placeholder(3, "M2", 1));
    want.push(cell(1, 0, 3, 0, "一号公寓"));
    assert_eq!(table.instructions, want);
    assert_eq!(table.next_row, 4);
}

#[test]
fn managers_without_records_tie_at_rank_one() {
    let roster = vec![mgr(1, 2, "M2"), mgr(1, 1, "M1"), mgr(1, 3, "M3")];
    let table = write_table2(5, &[], &roster).unwrap();
    let mut want = headers(5);
    want.extend(placeholder(6, "M1", 1));
    want.extend(placeholder(7, "M2", 1));
    want.extend(placeholder(8, "M3", 1));
    want.push(cell(6, 0, 8, 0, "一号公寓"));
    assert_eq!(table.instructions, want);
    assert_eq!(table.next_row, 9);
}

#[test]
fn a_single_record_writes_name_and_rank_without_merging() {
    let roster = vec![mgr(2, 1, "M")];
    let data = vec![rec(2, "M", 110, "x")];
    let table = write_table2(0, &data, &roster).unwrap();
    let mut want = headers(0);
    want.extend(dorm_row(1, &data[0]));
    want.push(text(1, 1, "M"));
    want.push(cell(1, 6, 1, 7, "-1"));
    want.push(number(1, 8, 1));
    want.push(text(1, 0, "二号公寓"));
    assert_eq!(table.instructions, want);
}

#[test]
fn apartments_ascend_and_a_manager_off_the_roster_comes_last() {
    let roster = vec![mgr(2, 1, "B1"), mgr(1, 1, "A1")];
    let data = vec![rec(1, "未知", 505, "x"), rec(2, "B1", 101, "y"), rec(3, "C", 101, "z")];
    let table = write_table2(0, &data, &roster).unwrap();
    let mut want = headers(0);
    want.extend(placeholder(1, "A1", 1));
    want.extend(dorm_row(2, &data[0]));
    want.push(text(2, 1, "未知"));
    want.push(cell(2, 6, 2, 7, "-1"));
    want.push(number(2, 8, 2));
    want.push(cell(1, 0, 2, 0, "一号公寓"));
    want.extend(dorm_row(3, &data[1]));
    want.push(text(3, 1, "B1"));
    want.push(cell(3, 6, 3, 7, "-1"));
    want.push(number(3, 8, 1));
    want.push(text(3, 0, "二号公寓"));
    want.extend(dorm_row(4, &data[2]));
    want.push(text(4, 1, "C"));
    want.push(cell(4, 6, 4, 7, "-1"));
    want.push(number(4, 8, 1));
    want.push(text(4, 0, "二号公寓"));
    assert_eq!(table.instructions, want);
    assert_eq!(table.next_row, 5);
}

#[test]
fn a_manager_is_placed_by_the_lowest_floor() {
    let roster = vec![mgr(1, 3, "X"), mgr(1, 2, "Y"), mgr(1, 1, "X"), mgr(2, 0, "Y")];
    assert_eq!(lowest_floor(&roster, 1, &"X".to_string()), Some(1));
    assert_eq!(lowest_floor(&roster, 1, &"Y".to_string()), Some(2));
    assert_eq!(lowest_floor(&roster, 1, &"Z".to_string()), None);
    let names = collect_names(&[], &roster, 1);
    assert_eq!(names, vec!["X", "Y"]);
    assert_eq!(order_managers(&[], &roster, 1), vec!["X", "Y"]);
}

#[test]
fn on_one_floor_the_better_total_comes_first_and_ties_keep_their_order() {
    let roster = vec![mgr(1, 1, "P"), mgr(1, 1, "Q"), mgr(1, 1, "R"), mgr(1, 0, "S")];
    let data = vec![rec(1, "P", 101, "x"), rec(1, "U", 101, "y"), rec(1, "V", 102, "z"),
        rec(1, "U", 103, "w")];
    let names = collect_names(&data, &roster, 1);
    assert_eq!(names, vec!["P", "Q", "R", "S", "U", "V"]);
    assert_eq!(order_managers(&data, &roster, 1), vec!["S", "Q", "R", "P", "V", "U"]);
}

#[test]
fn a_floor_above_ninety_nine_comes_after_managers_off_the_roster() {
    let roster = vec![mgr(1, 120, "High")];
    let data = vec![rec(1, "Off", 101, "x")];
    assert_eq!(order_managers(&data, &roster, 1), vec!["Off", "High"]);
}

#[test]
fn no_managers_give_only_the_headers() {
    let table = write_table2(2, &[], &[]).unwrap();
    assert_eq!(table.instructions, headers(2));
    assert_eq!(table.next_row, 3);
}

#[test]
fn a_manager_table_that_passes_the_last_row_number_is_refused() {
    let roster = vec![mgr(1, 1, "M1")];
    assert_eq!(write_table2(u32::MAX, &[], &[]).err(), Some(LayoutError::RowOverflow));
    assert_eq!(write_table2(u32::MAX - 1, &[], &roster).err(), Some(LayoutError::RowOverflow));
    assert_eq!(write_table2(u32::MAX - 2, &[], &roster).map(|t| t.next_row).ok(), Some(u32::MAX));
}
