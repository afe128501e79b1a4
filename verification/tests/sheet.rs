use dorm_report::department_table::{
    write_dorm_row_table1, write_empty_dept_row, write_group_summary, write_table1_headers,
};
use dorm_report::manager_table::{write_manager_dorm_row, write_manager_group, write_table2_headers};
use dorm_report::model::ProcessedRecord;
use dorm_report::sheet::{
    advance, merge_or_write_num, merge_or_write_str, put_all, put_column_width, put_image,
    put_merge, put_number, put_row_height, put_text, Instruction, Style,
};

fn text(row: u32, col: u16, value: &str) -> Instruction {
    Instruction::WriteText { row, col, value: value.to_string(), style: Style::Cell }
}

fn number(row: u32, col: u16, number: i64) -> Instruction {
    Instruction::WriteNumber { row, col, number, style: Style::Cell }
}

fn merge(r0: u32, c0: u16, r1: u32, c1: u16, value: &str) -> Instruction {
    Instruction::MergeRange {
        first_row: r0,
        first_col: c0,
        last_row: r1,
        last_col: c1,
        value: value.to_string(),
        style: Style::Cell,
    }
}

fn record() -> ProcessedRecord {
    ProcessedRecord {
        apartment: 1,
        grade: 1,
        class: 4,
        dept: "A".to_string(),
        teacher: "张".to_string(),
        manager: "李".to_string(),
        dorm: 312,
        reason: "被子".to_string(),
        deduction: -1,
    }
}

#[test]
fn instructions_are_appended_in_order() {
    let mut ws = Vec::new();
    put_text(&mut ws, 1, 2, "a".to_string(), Style::Title);
    put_number(&mut ws, 3, 4, -5, Style::Header);
    put_merge(&mut ws, 5, 6, 7, 8, "b".to_string(), Style::LeftText);
    put_row_height(&mut ws, 9, 30);
    put_column_width(&mut ws, 2, 12);
    put_image(&mut ws, 0, 1);
    put_all(&mut ws, vec![text(8, 8, "x"), number(9, 9, 9)]);
    assert_eq!(
        ws,
        vec![
            Instruction::WriteText { row: 1, col: 2, value: "a".to_string(), style: Style::Title },
            Instruction::WriteNumber { row: 3, col: 4, number: -5, style: Style::Header },
            Instruction::MergeRange {
                first_row: 5,
                first_col: 6,
                last_row: 7,
                last_col: 8,
                value: "b".to_string(),
                style: Style::LeftText,
            },
            Instruction::SetRowHeight { row: 9, height: 30 },
            Instruction::SetColumnWidth { col: 2, width: 12 },
            Instruction::EmbedImage { row: 0, col: 1 },
            text(8, 8, "x"),
            number(9, 9, 9),
        ]
    );
}

#[test]
fn a_value_for_several_rows_is_merged_and_for_one_row_written() {
    let mut ws = Vec::new();
    merge_or_write_str(&mut ws, 3, 5, 1, "label".to_string(), Style::Cell);
    merge_or_write_str(&mut ws, 3, 3, 1, "label".to_string(), Style::Cell);
    merge_or_write_num(&mut ws, 3, 4, 8, 12, Style::Cell);
    merge_or_write_num(&mut ws, 3, 3, 8, 12, Style::Cell);
    assert_eq!(
        ws,
        vec![merge(3, 1, 5, 1, "label"), text(3, 1, "label"), merge(3, 8, 4, 8, "12"), number(3, 8, 12)]
    );
}

#[test]
fn rows_are_counted_up_to_the_last_row_number() {
    assert_eq!(advance(0, 0), Some(0));
    assert_eq!(advance(7, 3), Some(10));
    assert_eq!(advance(u32::MAX - 3, 3), Some(u32::MAX));
    assert_eq!(advance(u32::MAX - 3, 4), None);
    assert_eq!(advance(u32::MAX, 1), None);
    assert_eq!(advance(1, usize::MAX), None);
}

#[test]
fn the_rows_of_a_record_in_the_two_tables() {
    let mut ws = Vec::new();
    write_dorm_row_table1(&mut ws, 7, &record());
    assert_eq!(
        ws,
        vec![text(7, 2, "张"), text(7, 3, "李"), text(7, 4, "312宿舍"), text(7, 5, "被子"), number(7, 6, -1)]
    );
    let mut ws = Vec::new();
    write_manager_dorm_row(&mut ws, 7, &record());
    assert_eq!(ws, vec![text(7, 2, "312宿舍"), merge(7, 3, 7, 4, "被子"), number(7, 5, -1)]);
}

#[test]
fn a_placeholder_row_of_a_department() {
    let mut ws = Vec::new();
    write_empty_dept_row(&mut ws, 4, "高一A部\n(甲)".to_string(), 3);
    assert_eq!(
        ws,
        vec![
            text(4, 1, "高一A部\n(甲)"),
            text(4, 2, "/"),
            text(4, 3, "/"),
            text(4, 4, "/"),
            text(4, 5, "/"),
            text(4, 6, "/"),
            text(4, 7, "/"),
            number(4, 8, 3),
        ]
    );
}

#[test]
fn a_group_summary_shows_label_total_and_rank() {
    let mut ws = Vec::new();
    write_group_summary(&mut ws, 2, 4, "L".to_string(), -3, 2);
    write_group_summary(&mut ws, 5, 5, "K".to_string(), -1, 1);
    assert_eq!(
        ws,
        vec![
            merge(2, 1, 4, 1, "L"),
            merge(2, 7, 4, 7, "-3"),
            merge(2, 8, 4, 8, "2"),
            text(5, 1, "K"),
            text(5, 7, "-1"),
            number(5, 8, 1),
        ]
    );
}

#[test]
fn a_manager_group_with_and_without_records() {
    let first = record();
    let mut second = record();
    second.dorm = 105;
    let mut ws = Vec::new();
    let next = write_manager_group(&mut ws, 10, &"李".to_string(), &vec![&first, &second], 2);
    assert_eq!(next, Some(12));
    assert_eq!(
        ws,
        vec![
            text(10, 2, "105宿舍"),
            merge(10, 3, 10, 4, "被子"),
            number(10, 5, -1),
            text(11, 2, "312宿舍"),
            merge(11, 3, 11, 4, "被子"),
            number(11, 5, -1),
            merge(10, 1, 11, 1, "李"),
            merge(10, 6, 11, 7, "-2"),
            merge(10, 8, 11, 8, "2"),
        ]
    );
    let mut ws = Vec::new();
    assert_eq!(write_manager_group(&mut ws, u32::MAX, &"李".to_string(), &vec![], 1), None);
    assert!(ws.is_empty());
    assert_eq!(write_manager_group(&mut ws, u32::MAX - 1, &"李".to_string(), &vec![], 1), Some(u32::MAX));
    assert_eq!(ws.len(), 6);
}

#[test]
fn the_headers_of_the_two_tables_differ() {
    let mut one = Vec::new();
    write_table1_headers(&mut one, 0);
    let mut two = Vec::new();
    write_table2_headers(&mut two, 0);
    assert_eq!(one.len(), 9);
    assert_eq!(two.len(), 7);
    assert_eq!(
        one[3],
        Instruction::WriteText { row: 0, col: 3, value: "宿舍管理员".to_string(), style: Style::Header }
    );
    assert_eq!(
        two[3],
        Instruction::MergeRange {
            first_row: 0,
            first_col: 3,
            last_row: 0,
            last_col: 4,
            value: "扣分原因".to_string(),
            style: Style::Header,
        }
    );
}
