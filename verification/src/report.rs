//! The whole report: a header and the department table, then a second
//! header and the manager table, on one sheet.

use vstd::prelude::*;
use vstd::string::*;
use crate::department_table::{
    department_table, lemma_blocks_grow, table1_headers, write_table1, Cursor, Pending,
};
use crate::manager_table::{
    lemma_manager_blocks_grow, manager_table, manager_table_end, write_table2,
};
use crate::model::{
    ApartmentRecord, ApartmentRecordView, DepartmentRecord, DepartmentRecordView, ProcessedRecord,
    ProcessedRecordView,
};
use crate::sheet::{
    advance, merged, put_all, put_column_width, put_image, put_merge, put_row_height, put_text,
    text_cell, Instruction, InstructionView, LayoutError, Style, Table,
};

verus! {

/// The number of rows of a header block.
pub const HEADER_ROWS: u32 = 6;

/// The height of the title row.
pub const TITLE_ROW_HEIGHT: u16 = 30;

/// The height of the row that holds the rules.
pub const RULES_ROW_HEIGHT: u16 = 80;

/// The rules by which dormitories are assessed, as the header prints them.
pub const RULES: &'static str =
    "宿舍卫生:宿舍卫生验评满分10分\n1.宿舍床铺被子叠放整齐(此项不合格每人扣1分)\n2.床单平整(此项不合格每人扣1分)\n3.无多余杂物(如衣物、书本、零食)此项不合格每人扣1分)\n4.簸箕内清理干净(此项不合格每人扣1分)";

/// The text of the rules.
pub open spec fn rules_text() -> Seq<char> {
    RULES@
}

/// A header block from `start_row` on: the title with the image, the
/// reporter and the date, the assessing office, the subject, the time window
/// and the rules; six rows in all.
pub open spec fn report_header(
    start_row: int,
    reporter: Seq<char>,
    date: Seq<char>,
    time: Seq<char>,
) -> Seq<InstructionView> {
    let r = start_row;
    seq![
        InstructionView::SetRowHeight { row: r, height: 30 },
        merged(r, 0, r, 8, "高中部宿舍卫生验评通报总结"@, Style::Title),
        InstructionView::EmbedImage { row: r, col: 0 },
        merged(r + 1, 0, r + 1, 4, "汇报人: "@ + reporter, Style::LeftAlign),
        merged(r + 1, 5, r + 1, 7, "验评对象: 高一、高二、高三"@, Style::CenterBold),
        text_cell(r + 1, 8, "日期: "@ + date, Style::CenterBold),
        text_cell(r + 2, 0, "验评部门"@, Style::CenterBold),
        merged(r + 2, 1, r + 2, 8, "校办公室"@, Style::Cell),
        text_cell(r + 3, 0, "验评项目"@, Style::CenterBold),
        merged(r + 3, 1, r + 3, 8, "高一高二高三男生宿舍卫生"@, Style::Cell),
        text_cell(r + 4, 0, "验评时间"@, Style::CenterBold),
        merged(r + 4, 1, r + 4, 8, time, Style::Cell),
        text_cell(r + 5, 0, "验评细则"@, Style::CenterBold),
        merged(r + 5, 1, r + 5, 8, rules_text(), Style::LeftText),
        InstructionView::SetRowHeight { row: r + 5, height: 80 },
    ]
}

/// Writes a header block from `start_row` on.
pub fn write_report_header(start_row: u32, reporter: &str, date: &str, time: &str) -> (out: Result<
    Table,
    LayoutError,
>)
    ensures
        match out {
            Ok(table) => {
                &&& table.instructions.deep_view() == report_header(
                    start_row as int,
                    reporter@,
                    date@,
                    time@,
                )
                &&& table.next_row == start_row + HEADER_ROWS
            },
            Err(e) => start_row + HEADER_ROWS > u32::MAX,
        },
{
    let below = match advance(start_row, HEADER_ROWS as usize) {
        Some(n) => n,
        None => {
            return Err(LayoutError::RowOverflow);
        },
    };
    let mut ws: Vec<Instruction> = Vec::new();
    put_row_height(&mut ws, start_row, TITLE_ROW_HEIGHT);
    put_merge(
        &mut ws,
        start_row,
        0,
        start_row,
        8,
        String::from_str("高中部宿舍卫生验评通报总结"),
        Style::Title,
    );
    put_image(&mut ws, start_row, 0);
    let r = start_row + 1;
    put_merge(&mut ws, r, 0, r, 4, String::from_str("汇报人: ").concat(reporter), Style::LeftAlign);
    put_merge(
        &mut ws,
        r,
        5,
        r,
        7,
        String::from_str("验评对象: 高一、高二、高三"),
        Style::CenterBold,
    );
    put_text(&mut ws, r, 8, String::from_str("日期: ").concat(date), Style::CenterBold);
    let r = r + 1;
    put_text(&mut ws, r, 0, String::from_str("验评部门"), Style::CenterBold);
    put_merge(&mut ws, r, 1, r, 8, String::from_str("校办公室"), Style::Cell);
    let r = r + 1;
    put_text(&mut ws, r, 0, String::from_str("验评项目"), Style::CenterBold);
    put_merge(&mut ws, r, 1, r, 8, String::from_str("高一高二高三男生宿舍卫生"), Style::Cell);
    let r = r + 1;
    put_text(&mut ws, r, 0, String::from_str("验评时间"), Style::CenterBold);
    put_merge(&mut ws, r, 1, r, 8, String::from_str(time), Style::Cell);
    let r = r + 1;
    put_text(&mut ws, r, 0, String::from_str("验评细则"), Style::CenterBold);
    put_merge(&mut ws, r, 1, r, 8, String::from_str(RULES), Style::LeftText);
    put_row_height(&mut ws, r, RULES_ROW_HEIGHT);
    assert(ws.deep_view() =~= report_header(start_row as int, reporter@, date@, time@));
    Ok(Table { instructions: ws, next_row: below })
}

/// The widths of the nine columns of the sheet.
pub open spec fn column_width(col: int) -> int {
    if col < 3 {
        12
    } else if col < 5 {
        10
    } else if col == 5 {
        18
    } else {
        8
    }
}

/// The instructions that set the widths of the nine columns.
pub open spec fn column_widths() -> Seq<InstructionView> {
    Seq::new(9, |col: int| InstructionView::SetColumnWidth { col, width: column_width(col) })
}

/// Writes the instructions that set the widths of the nine columns.
pub fn set_column_widths(ws: &mut Vec<Instruction>)
    ensures
        final(ws).deep_view() == old(ws).deep_view() + column_widths(),
{
    let mut col: u16 = 0;
    assert(ws.deep_view() =~= old(ws).deep_view() + column_widths().take(0));
    while col < 9
        invariant
            col <= 9,
            ws.deep_view() == old(ws).deep_view() + column_widths().take(col as int),
        decreases 9 - col,
    {
        let width: u16 = if col < 3 {
            12
        } else if col < 5 {
            10
        } else if col == 5 {
            18
        } else {
            8
        };
        put_column_width(ws, col, width);
        assert(ws.deep_view() =~= old(ws).deep_view() + column_widths().take(col + 1));
        col = col + 1;
    }
    assert(column_widths().take(9) =~= column_widths());
}

/// The row at which the second header block starts: two rows are left free
/// below the department table.
pub open spec fn second_header_row(
    data: Seq<ProcessedRecordView>,
    departments: Seq<DepartmentRecordView>,
) -> int {
    department_table(6, data, departments).row + 2
}

/// The first row below the whole report.
pub open spec fn report_end(
    data: Seq<ProcessedRecordView>,
    departments: Seq<DepartmentRecordView>,
    managers: Seq<ApartmentRecordView>,
) -> int {
    manager_table_end(second_header_row(data, departments) + 6, data, managers)
}

/// The whole report: a header block and the department table; two free
/// rows; a header block and the manager table; the column widths.
pub open spec fn report(
    data: Seq<ProcessedRecordView>,
    departments: Seq<DepartmentRecordView>,
    managers: Seq<ApartmentRecordView>,
    reporter: Seq<char>,
    date: Seq<char>,
    time: Seq<char>,
) -> Seq<InstructionView> {
    let second = second_header_row(data, departments);
    report_header(0, reporter, date, time) + department_table(6, data, departments).ops
        + report_header(second, reporter, date, time) + manager_table(second + 6, data, managers)
        + column_widths()
}

/// Lays out the whole report.
///
/// The result is the list of instructions for the sink, in the order in
/// which they are to be performed. It is a function of the arguments alone:
/// the same records and rosters always give the same instructions. There is
/// no report where a row number would pass the last one there is.
pub fn generate_report(
    data: &[ProcessedRecord],
    departments: &[DepartmentRecord],
    managers: &[ApartmentRecord],
    reporter: &str,
    date: &str,
    time: &str,
) -> (out: Result<Vec<Instruction>, LayoutError>)
    requires
        data@.len() <= u32::MAX,
        departments@.len() <= u32::MAX,
        managers@.len() <= u32::MAX,
    ensures
        match out {
            Ok(instructions) => {
                &&& report_end(data.deep_view(), departments.deep_view(), managers.deep_view())
                    <= u32::MAX
                &&& instructions.deep_view() == report(
                    data.deep_view(),
                    departments.deep_view(),
                    managers.deep_view(),
                    reporter@,
                    date@,
                    time@,
                )
            },
            Err(e) => report_end(data.deep_view(), departments.deep_view(), managers.deep_view())
                > u32::MAX,
        },
{
    let ghost records = data.deep_view();
    let ghost roster = departments.deep_view();
    let ghost rows = managers.deep_view();
    proof {
        let start = Cursor {
            ops: table1_headers(6),
            row: 7,
            pending: Pending { first: None, last: None },
        };
        lemma_blocks_grow(start, records, roster, 0, 256);
        lemma_manager_blocks_grow(records, rows, 0, 256);
    }
    let mut ws: Vec<Instruction> = Vec::new();
    let header = match write_report_header(0, reporter, date, time) {
        Ok(t) => t,
        Err(e) => {
            return Err(e);
        },
    };
    put_all(&mut ws, header.instructions);
    let table = match write_table1(header.next_row, data, departments) {
        Ok(t) => t,
        Err(e) => {
            return Err(e);
        },
    };
    put_all(&mut ws, table.instructions);
    let second = match advance(table.next_row, 2) {
        Some(n) => n,
        None => {
            return Err(LayoutError::RowOverflow);
        },
    };
    let header = match write_report_header(second, reporter, date, time) {
        Ok(t) => t,
        Err(e) => {
            return Err(e);
        },
    };
    put_all(&mut ws, header.instructions);
    let table = match write_table2(header.next_row, data, managers) {
        Ok(t) => t,
        Err(e) => {
            return Err(e);
        },
    };
    put_all(&mut ws, table.instructions);
    set_column_widths(&mut ws);
    assert(ws.deep_view() =~= report(records, roster, rows, reporter@, date@, time@));
    Ok(ws)
}

} // verus!
