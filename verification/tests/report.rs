use dorm_report::enrich::enrich_all;
use dorm_report::model::{ApartmentRecord, DepartmentRecord, GradeRecord, ReportDataRecord};
use dorm_report::report::{generate_report, set_column_widths, write_report_header};
use dorm_report::sheet::{Instruction, LayoutError, Style};

fn merge(r0: u32, c0: u16, r1: u32, c1: u16, value: &str, style: Style) -> Instruction {
    Instruction::MergeRange {
        first_row: r0,
        first_col: c0,
        last_row: r1,
        last_col: c1,
        value: value.to_string(),
        style,
    }
}

fn text(row: u32, col: u16, value: &str, style: Style) -> Instruction {
    Instruction::WriteText { row, col, value: value.to_string(), style }
}

const RULES: &str = "宿舍卫生:宿舍卫生验评满分10分\n1.宿舍床铺被子叠放整齐(此项不合格每人扣1分)\n2.床单平整(此项不合格每人扣1分)\n3.无多余杂物(如衣物、书本、零食)此项不合格每人扣1分)\n4.簸箕内清理干净(此项不合格每人扣1分)";

fn header(r: u32, reporter: &str, date: &str, time: &str) -> Vec<Instruction> {
    vec![
        Instruction::SetRowHeight { row: r, height: 30 },
        merge(r, 0, r, 8, "高中部宿舍卫生验评通报总结", Style::Title),
        Instruction::EmbedImage { row: r, col: 0 },
        merge(r + 1, 0, r + 1, 4, &format!("汇报人: {}", reporter), Style::LeftAlign),
        merge(r + 1, 5, r + 1, 7, "验评对象: 高一、高二、高三", Style::CenterBold),
        text(r + 1, 8, &format!("日期: {}", date), Style::CenterBold),
        text(r + 2, 0, "验评部门", Style::CenterBold),
        merge(r + 2, 1, r + 2, 8, "校办公室", Style::Cell),
        text(r + 3, 0, "验评项目", Style::CenterBold),
        merge(r + 3, 1, r + 3, 8, "高一高二高三男生宿舍卫生", Style::Cell),
        text(r + 4, 0, "验评时间", Style::CenterBold),
        merge(r + 4, 1, r + 4, 8, time, Style::Cell),
        text(r + 5, 0, "验评细则", Style::CenterBold),
        merge(r + 5, 1, r + 5, 8, RULES, Style::LeftText),
        Instruction::SetRowHeight { row: r + 5, height: 80 },
    ]
}

fn widths() -> Vec<Instruction> {
    [12u16, 12, 12, 10, 10, 18, 8, 8, 8]
        .iter()
        .enumerate()
        .map(|(col, w)| Instruction::SetColumnWidth { col: col as u16, width: *w })
        .collect()
}

fn grades() -> Vec<GradeRecord> {
    vec![
        GradeRecord { grade: 1, dept: Some("A".to_string()), class: 1, teacher: "张".to_string() },
        GradeRecord { grade: 2, dept: Some("A".to_string()), class: 1, teacher: "王".to_string() },
        GradeRecord { grade: 3, dept: None, class: 4, teacher: "李".to_string() },
    ]
}

fn managers() -> Vec<ApartmentRecord> {
    vec![
        ApartmentRecord { apartment: 1, floor: 1, manager: "M1".to_string() },
        ApartmentRecord { apartment: 1, floor: 2, manager: "M2".to_string() },
        ApartmentRecord { apartment: 2, floor: 1, manager: "M3".to_string() },
    ]
}

fn departments() -> Vec<DepartmentRecord> {
    vec![
        DepartmentRecord { grade: 1, dept: "A".to_string(), leader: "甲".to_string(), apartment: 1 },
        DepartmentRecord { grade: 2, dept: "A".to_string(), leader: "乙".to_string(), apartment: 2 },
    ]
}

fn raws() -> Vec<ReportDataRecord> {
    let raw = |grade: u8, class: u8, apartment: u8, dorm: u16, reason: &str| ReportDataRecord {
        grade,
        class,
        apartment,
        dorm,
        reason: reason.to_string(),
    };
    vec![
        raw(1, 1, 1, 203, "被子"),
        raw(2, 1, 2, 101, "床单"),
        raw(3, 4, 1, 105, "杂物"),
        raw(2, 1, 1, 102, "簸箕"),
        raw(1, 1, 1, 101, "被子"),
    ]
}

#[test]
fn a_header_block_has_six_rows() {
    let table = write_report_header(3, "甲、乙", "12月5日", "下午").unwrap();
    assert_eq!(table.instructions, header(3, "甲、乙", "12月5日", "下午"));
    assert_eq!(table.next_row, 9);
}

#[test]
fn a_header_block_needs_six_rows() {
    assert_eq!(
        write_report_header(u32::MAX - 5, "a", "b", "c").err(),
        Some(LayoutError::RowOverflow)
    );
    assert_eq!(write_report_header(u32::MAX - 6, "a", "b", "c").map(|t| t.next_row).ok(), Some(u32::MAX));
}

#[test]
fn nine_columns_get_their_widths() {
    let mut ws = vec![Instruction::EmbedImage { row: 0, col: 0 }];
    set_column_widths(&mut ws);
    let mut want = vec![Instruction::EmbedImage { row: 0, col: 0 }];
    want.extend(widths());
    assert_eq!(ws, want);
}

#[test]
fn the_report_is_two_headers_two_tables_and_the_widths() {
    let data = enrich_all(&raws(), &grades(), &managers());
    let report = generate_report(&data, &departments(), &managers(), "R", "D", "T").unwrap();
    assert_eq!(report[..15], header(0, "R", "D", "T")[..]);
    // the department table: headers in row 6, then
    // apartment 2: the dual department (row 7)
    // apartment 1: department A of grade 1 (rows 8, 9), the dual department (row 10),
    //              both with two records, so both of rank 1;
    //              classroom 4 (row 11)
    // two free rows, the second header in rows 14..=19, the manager table from row 20
    let second = report
        .iter()
        .position(|i| *i == Instruction::SetRowHeight { row: 14, height: 30 })
        .unwrap();
    assert_eq!(report[second..second + 15], header(14, "R", "D", "T")[..]);
    assert_eq!(report[report.len() - 9..], widths()[..]);
    let style = Style::Cell;
    let deferred = vec![
        merge(7, 1, 10, 1, "高二A部\n(乙)", style),
        merge(7, 7, 10, 7, "-2", style),
        merge(7, 8, 10, 8, "1", style),
    ];
    assert_eq!(report[second - 3..second], deferred[..]);
    assert!(report.contains(&merge(8, 0, 11, 0, "一号公寓", style)));
    assert!(report.contains(&text(7, 0, "二号公寓", style)));
    assert!(report.contains(&text(11, 1, "4班", style)));
    // the manager table: M1 (rows 21..=23), M2 (row 24), M3 (row 25)
    assert!(report.contains(&merge(21, 1, 23, 1, "M1", style)));
    assert!(report.contains(&merge(21, 6, 23, 7, "-3", style)));
    assert!(report.contains(&merge(21, 8, 23, 8, "2", style)));
    assert!(report.contains(&text(24, 1, "M2", style)));
    assert!(report.contains(&merge(21, 0, 24, 0, "一号公寓", style)));
    assert!(report.contains(&text(25, 1, "M3", style)));
    assert!(report.contains(&text(25, 0, "二号公寓", style)));
}

#[test]
fn the_same_input_gives_the_same_report() {
    let data = enrich_all(&raws(), &grades(), &managers());
    let first = generate_report(&data, &departments(), &managers(), "R", "D", "T").unwrap();
    let again = generate_report(&data, &departments(), &managers(), "R", "D", "T").unwrap();
    assert_eq!(first, again);
    let data = enrich_all(&raws(), &grades(), &managers());
    let fresh = generate_report(&data, &departments(), &managers(), "R", "D", "T").unwrap();
    assert_eq!(first, fresh);
}

#[test]
fn an_empty_report_still_has_both_headers() {
    let report = generate_report(&[], &[], &[], "", "", "").unwrap();
    let mut want = header(0, "", "", "");
    want.extend((0..9u16).map(|c| Instruction::WriteText {
        row: 6,
        col: c,
        value: ["公寓", "级部", "班主任", "宿舍管理员", "宿舍号", "扣分原因", "扣分", "总扣分", "排名"]
            [c as usize]
            .to_string(),
        style: Style::Header,
    }));
    want.extend(header(9, "", "", ""));
    assert_eq!(report[..want.len()], want[..]);
    assert_eq!(report.len(), want.len() + 7 + 9);
}
