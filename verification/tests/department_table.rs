use dorm_report::department::{find_department, Apt2AState};
use dorm_report::department_table::{write_class_group, write_dept_group, write_table1};
use dorm_report::model::{DepartmentRecord, ProcessedRecord};
use dorm_report::sheet::{Instruction, LayoutError, Style};

fn rec(apartment: u8, grade: u8, class: u8, dept: &str, dorm: u16, reason: &str) -> ProcessedRecord {
    ProcessedRecord {
        apartment,
        grade,
        class,
        dept: dept.to_string(),
        teacher: format!("T{}-{}", grade, class),
        manager: format!("M{}-{}", apartment, dorm / 100),
        dorm,
        reason: reason.to_string(),
        deduction: -1,
    }
}

fn dep(grade: u8, dept: &str, leader: &str, apartment: u8) -> DepartmentRecord {
    DepartmentRecord { grade, dept: dept.to_string(), leader: leader.to_string(), apartment }
}

fn text(row: u32, col: u16, value: &str) -> Instruction {
    Instruction::WriteText { row, col, value: value.to_string(), style: Style::Cell }
}

fn head(row: u32, col: u16, value: &str) -> Instruction {
    Instruction::WriteText { row, col, value: value.to_string(), style: Style::Header }
}

fn number(row: u32, col: u16, number: i64) -> Instruction {
    Instruction::WriteNumber { row, col, number, style: Style::Cell }
}

fn merge(first_row: u32, col: u16, last_row: u32, value: &str) -> Instruction {
    Instruction::MergeRange {
        first_row,
        first_col: col,
        last_row,
        last_col: col,
        value: value.to_string(),
        style: Style::Cell,
    }
}

fn headers(row: u32) -> Vec<Instruction> {
    vec![
        head(row, 0, "公寓"),
        head(row, 1, "级部"),
        head(row, 2, "班主任"),
        head(row, 3, "宿舍管理员"),
        head(row, 4, "宿舍号"),
        head(row, 5, "扣分原因"),
        head(row, 6, "扣分"),
        head(row, 7, "总扣分"),
        head(row, 8, "排名"),
    ]
}

fn dorm_row(row: u32, r: &ProcessedRecord) -> Vec<Instruction> {
    vec![
        text(row, 2, &r.teacher),
        text(row, 3, &r.manager),
        text(row, 4, &format!("{}宿舍", r.dorm)),
        text(row, 5, &r.reason),
        number(row, 6, -1),
    ]
}

fn placeholder(row: u32, label: &str, rank: i64) -> Vec<Instruction> {
    let mut v = vec![text(row, 1, label)];
    for col in 2..=7 {
        v.push(text(row, col, "/"));
    }
    v.push(number(row, 8, rank));
    v
}

#[test]
fn a_department_with_records_and_one_without() {
    let roster = vec![dep(1, "A", "LA", 1), dep(1, "B", "LB", 1)];
    let data = vec![
        rec(1, 1, 1, "A", 201, "r201"),
        rec(1, 1, 1, "A", 101, "first"),
        rec(1, 1, 2, "A", 101, "second"),
    ];
    let table = write_table1(6, &data, &roster).unwrap();
    let mut want = headers(6);
    want.extend(dorm_row(7, &data[1]));
    want.extend(dorm_row(8, &data[2]));
    want.extend(dorm_row(9, &data[0]));
    want.push(merge(7, 1, 9, "高一A部\n(LA)"));
    want.push(merge(7, 7, 9, "-3"));
    want.push(merge(7, 8, 9, "2"));
    want.extend(placeholder(10, "高一B部\n(LB)", 1));
    want.push(merge(7, 0, 10, "一号公寓"));
    assert_eq!(table.instructions, want);
    assert_eq!(table.next_row, 11);
}

#[test]
fn departments_without_records_all_rank_first() {
    let roster = vec![
        dep(1, "A", "LA", 1),
        dep(1, "B", "LB", 1),
        dep(2, "B", "L2B", 2),
        dep(3, "A", "L3A", 2),
    ];
    let data = vec![
        rec(1, 1, 1, "A", 101, "a"),
        rec(1, 1, 1, "A", 101, "b"),
        rec(1, 1, 1, "A", 201, "c"),
    ];
    let table = write_table1(0, &data, &roster).unwrap();
    let mut want = headers(0);
    // apartment 2 comes first
    want.extend(placeholder(1, "高二B部\n(L2B)", 1));
    want.extend(placeholder(2, "高三A部\n(L3A)", 1));
    want.push(merge(1, 0, 2, "二号公寓"));
    want.extend(dorm_row(3, &data[0]));
    want.extend(dorm_row(4, &data[1]));
    want.extend(dorm_row(5, &data[2]));
    want.push(merge(3, 1, 5, "高一A部\n(LA)"));
    want.push(merge(3, 7, 5, "-3"));
    want.push(merge(3, 8, 5, "2"));
    want.extend(placeholder(6, "高一B部\n(LB)", 1));
    want.push(merge(3, 0, 6, "一号公寓"));
    assert_eq!(table.instructions, want);
    assert_eq!(table.next_row, 7);
}

#[test]
fn a_day_without_records_still_shows_every_department() {
    let roster = vec![dep(2, "A", "L2A", 1), dep(1, "A", "LA", 1), dep(3, "C", "L3C", 2)];
    let table = write_table1(0, &[], &roster).unwrap();
    let mut want = headers(0);
    want.extend(placeholder(1, "高三C部\n(L3C)", 1));
    want.push(text(1, 0, "二号公寓"));
    want.extend(placeholder(2, "高一A部\n(LA)", 1));
    want.extend(placeholder(3, "高二A部\n(L2A)", 1));
    want.push(merge(2, 0, 3, "一号公寓"));
    assert_eq!(table.instructions, want);
    assert_eq!(table.next_row, 4);
}

#[test]
fn an_empty_roster_gives_only_the_headers() {
    let data = vec![rec(1, 1, 1, "A", 101, "a"), rec(1, 1, 1, "", 102, "b")];
    let table = write_table1(3, &data, &[]).unwrap();
    assert_eq!(table.instructions, headers(3));
    assert_eq!(table.next_row, 4);
}

#[test]
fn classroom_groups_follow_the_departments_and_rank_within_the_apartment() {
    let roster = vec![dep(1, "A", "LA", 1)];
    let data = vec![
        rec(1, 1, 7, "", 105, "c7"),
        rec(1, 2, 3, "", 104, "c3a"),
        rec(1, 1, 3, "", 103, "c3b"),
        rec(2, 1, 9, "", 101, "elsewhere"),
    ];
    let table = write_table1(0, &data, &roster).unwrap();
    let mut want = headers(0);
    want.extend(placeholder(1, "高一A部\n(LA)", 1));
    want.extend(dorm_row(2, &data[2]));
    want.extend(dorm_row(3, &data[1]));
    want.push(merge(2, 1, 3, "3班"));
    want.push(merge(2, 7, 3, "-2"));
    want.push(merge(2, 8, 3, "2"));
    want.extend(dorm_row(4, &data[0]));
    want.push(text(4, 1, "7班"));
    want.push(text(4, 7, "-1"));
    want.push(number(4, 8, 1));
    want.push(merge(1, 0, 4, "一号公寓"));
    assert_eq!(table.instructions, want);
    assert_eq!(table.next_row, 5);
}

#[test]
fn a_classroom_without_records_writes_nothing() {
    let mut ws = Vec::new();
    let none: Vec<&ProcessedRecord> = Vec::new();
    assert_eq!(write_class_group(&mut ws, 5, 3, &none, 1), Some(5));
    assert!(ws.is_empty());
}

#[test]
fn a_department_total_is_the_sum_within_the_apartment_and_the_rank_is_global() {
    // department B of grade 1 has records in both apartments, which only the
    // dual-apartment department is meant to have: each block shows its own sum
    let roster = vec![dep(1, "A", "LA", 1), dep(1, "B", "LB", 2)];
    let data = vec![
        rec(1, 1, 1, "A", 101, "a1"),
        rec(1, 1, 1, "A", 102, "a2"),
        rec(2, 1, 2, "B", 101, "b-two"),
        rec(1, 1, 2, "B", 103, "b-one"),
        rec(1, 1, 2, "B", 104, "b-one"),
    ];
    let table = write_table1(0, &data, &roster).unwrap();
    let mut want = headers(0);
    want.extend(dorm_row(1, &data[2]));
    want.push(text(1, 1, "高一B部\n(LB)"));
    want.push(text(1, 7, "-1"));
    want.push(number(1, 8, 2));
    want.push(text(1, 0, "二号公寓"));
    want.extend(dorm_row(2, &data[0]));
    want.extend(dorm_row(3, &data[1]));
    want.push(merge(2, 1, 3, "高一A部\n(LA)"));
    want.push(merge(2, 7, 3, "-2"));
    want.push(merge(2, 8, 3, "1"));
    want.extend(dorm_row(4, &data[3]));
    want.extend(dorm_row(5, &data[4]));
    want.push(merge(4, 1, 5, "高一B部\n(LB)"));
    want.push(merge(4, 7, 5, "-2"));
    want.push(merge(4, 8, 5, "2"));
    want.push(merge(2, 0, 5, "一号公寓"));
    assert_eq!(table.instructions, want);
}

#[test]
fn the_dual_department_in_both_apartments_is_merged_at_the_end() {
    let roster = vec![dep(2, "A", "L2A", 1), dep(2, "B", "L2B", 2), dep(1, "A", "LA", 1)];
    let data = vec![
        rec(1, 2, 1, "A", 102, "one-a"),
        rec(2, 2, 1, "A", 201, "two-a"),
        rec(1, 2, 1, "A", 101, "one-b"),
        rec(1, 1, 1, "A", 110, "g1"),
    ];
    let table = write_table1(0, &data, &roster).unwrap();
    let mut want = headers(0);
    // apartment 2: the dual department's row without label, total and rank
    want.extend(dorm_row(1, &data[1]));
    want.extend(placeholder(2, "高二B部\n(L2B)", 1));
    want.push(merge(1, 0, 2, "二号公寓"));
    // apartment 1
    want.extend(dorm_row(3, &data[3]));
    want.push(text(3, 1, "高一A部\n(LA)"));
    want.push(text(3, 7, "-1"));
    want.push(number(3, 8, 2));
    want.extend(dorm_row(4, &data[2]));
    want.extend(dorm_row(5, &data[0]));
    want.push(merge(3, 0, 5, "一号公寓"));
    // the deferred merge: total over both apartments
    want.push(merge(1, 1, 5, "高二A部\n(L2A)"));
    want.push(merge(1, 7, 5, "-3"));
    want.push(merge(1, 8, 5, "3"));
    assert_eq!(table.instructions, want);
    assert_eq!(table.next_row, 6);
}

#[test]
fn the_dual_department_in_one_apartment_is_an_ordinary_group_there() {
    let roster = vec![dep(2, "A", "L2A", 1), dep(1, "A", "LA", 2)];
    let data = vec![rec(2, 2, 1, "A", 201, "two-a"), rec(2, 2, 1, "A", 105, "two-b")];
    let table = write_table1(0, &data, &roster).unwrap();
    let mut want = headers(0);
    want.extend(placeholder(1, "高一A部\n(LA)", 1));
    want.extend(dorm_row(2, &data[1]));
    want.extend(dorm_row(3, &data[0]));
    want.push(merge(2, 1, 3, "高二A部\n(L2A)"));
    want.push(merge(2, 7, 3, "-2"));
    want.push(merge(2, 8, 3, "2"));
    want.push(merge(1, 0, 3, "二号公寓"));
    // apartment 1 is listed by the roster, but nothing is seeded there
    assert_eq!(table.instructions, want);
    assert_eq!(table.next_row, 4);
}

#[test]
fn the_dual_department_without_records_shows_in_apartment_one() {
    let roster = vec![dep(2, "A", "L2A", 2), dep(1, "A", "LA", 1)];
    let table = write_table1(0, &[], &roster).unwrap();
    let mut want = headers(0);
    want.extend(placeholder(1, "高一A部\n(LA)", 1));
    want.extend(placeholder(2, "高二A部\n(L2A)", 1));
    want.push(merge(1, 0, 2, "一号公寓"));
    assert_eq!(table.instructions, want);
}

#[test]
fn the_dual_department_without_records_is_not_shown_where_apartment_one_has_no_block() {
    let roster = vec![dep(2, "A", "L2A", 2)];
    let table = write_table1(0, &[], &roster).unwrap();
    assert_eq!(table.instructions, headers(0));
    assert_eq!(table.next_row, 1);
}

#[test]
fn the_last_roster_row_of_a_department_counts() {
    let roster = vec![dep(1, "A", "old", 1), dep(1, "A", "new", 2)];
    assert_eq!(find_department(&roster, 1, &"A".to_string()).map(|e| e.apartment), Some(2));
    assert_eq!(find_department(&roster, 1, &"B".to_string()).map(|e| e.apartment), None);
    let table = write_table1(0, &[], &roster).unwrap();
    let mut want = headers(0);
    want.extend(placeholder(1, "高一A部\n(new)", 1));
    want.push(text(1, 0, "二号公寓"));
    assert_eq!(table.instructions, want);
}

#[test]
fn departments_are_shown_by_grade_and_then_by_code() {
    let roster = vec![
        dep(3, "A", "", 1),
        dep(1, "B", "", 1),
        dep(2, "C", "", 1),
        dep(1, "AB", "", 1),
        dep(1, "A", "", 1),
    ];
    let table = write_table1(0, &[], &roster).unwrap();
    let labels: Vec<String> = table
        .instructions
        .iter()
        .filter_map(|i| match i {
            Instruction::WriteText { col: 1, value, style: Style::Cell, .. } => Some(value.clone()),
            _ => None,
        })
        .collect();
    assert_eq!(
        labels,
        vec!["高一A部\n()", "高一AB部\n()", "高一B部\n()", "高二C部\n()", "高三A部\n()"]
    );
}

#[test]
fn the_state_knows_where_the_dual_department_has_records() {
    let both = vec![rec(1, 2, 1, "A", 101, "x"), rec(2, 2, 1, "A", 101, "y")];
    let s = Apt2AState::new(&both);
    assert!(s.in_both && !s.in_apt1_only && !s.in_apt2_only && !s.in_neither);
    assert!(s.should_show_in_apt(1) && s.should_show_in_apt(2));
    assert_eq!((s.start_row, s.end_row), (None, None));

    let one = vec![rec(1, 2, 1, "A", 101, "x"), rec(2, 2, 1, "B", 101, "y")];
    let s = Apt2AState::new(&one);
    assert!(!s.in_both && s.in_apt1_only && !s.in_apt2_only && !s.in_neither);
    assert!(s.should_show_in_apt(1) && !s.should_show_in_apt(2));

    let two = vec![rec(2, 2, 1, "A", 101, "x"), rec(1, 1, 1, "A", 101, "y")];
    let s = Apt2AState::new(&two);
    assert!(!s.in_both && !s.in_apt1_only && s.in_apt2_only && !s.in_neither);
    assert!(!s.should_show_in_apt(1) && s.should_show_in_apt(2));

    let s = Apt2AState::new(&[]);
    assert!(!s.in_both && !s.in_apt1_only && !s.in_apt2_only && s.in_neither);
    assert!(s.should_show_in_apt(1) && !s.should_show_in_apt(2));
}

#[test]
fn a_group_of_the_dual_department_notes_its_rows() {
    let roster = vec![dep(2, "A", "L", 1)];
    let data = vec![rec(1, 2, 1, "A", 102, "x"), rec(2, 2, 1, "A", 101, "y")];
    let mut state = Apt2AState::new(&data);
    let mut ws = Vec::new();
    let members = vec![&data[0]];
    let next = write_dept_group(&mut ws, 4, 2, &"A".to_string(), &members, 1, &roster, &mut state);
    assert_eq!(next, Some(5));
    assert_eq!(ws, dorm_row(4, &data[0]));
    assert_eq!((state.start_row, state.end_row), (Some(4), Some(4)));
    let members = vec![&data[1]];
    let next = write_dept_group(&mut ws, 9, 2, &"A".to_string(), &members, 1, &roster, &mut state);
    assert_eq!(next, Some(10));
    assert_eq!((state.start_row, state.end_row), (Some(4), Some(9)));
}

#[test]
fn a_table_that_passes_the_last_row_number_is_refused() {
    let roster = vec![dep(1, "A", "LA", 1)];
    assert_eq!(write_table1(u32::MAX, &[], &roster).err(), Some(LayoutError::RowOverflow));
    assert_eq!(write_table1(u32::MAX - 1, &[], &roster).err(), Some(LayoutError::RowOverflow));
    assert_eq!(write_table1(u32::MAX - 2, &[], &roster).map(|t| t.next_row).ok(), Some(u32::MAX));
    assert_eq!(write_table1(u32::MAX - 1, &[], &[]).map(|t| t.next_row).ok(), Some(u32::MAX));
    let mut state = Apt2AState::new(&[]);
    let mut ws = Vec::new();
    let none: Vec<&ProcessedRecord> = Vec::new();
    let next =
        write_dept_group(&mut ws, u32::MAX, 1, &"A".to_string(), &none, 1, &roster, &mut state);
    assert_eq!(next, None);
    assert!(ws.is_empty());
}
