//! The instructions that the layout engine hands to a spreadsheet sink.

use vstd::prelude::*;
use crate::text::{decimal, decimal_string};

verus! {

/// How a cell is to look. The engine only tells title, header and body
/// variants apart; what each looks like is the sink's business.
#[derive(Debug, Clone, Copy, PartialEq, Eq, Structural)]
pub enum Style {
    Title,
    Header,
    Cell,
    LeftAlign,
    CenterBold,
    LeftText,
}

/// One step for the sink to perform. Rows and columns count from zero.
#[derive(Debug, PartialEq, Eq)]
pub enum Instruction {
    WriteText { row: u32, col: u16, value: String, style: Style },
    WriteNumber { row: u32, col: u16, number: i64, style: Style },
    MergeRange {
        first_row: u32,
        first_col: u16,
        last_row: u32,
        last_col: u16,
        value: String,
        style: Style,
    },
    SetRowHeight { row: u32, height: u16 },
    SetColumnWidth { col: u16, width: u16 },
    EmbedImage { row: u32, col: u16 },
}

/// View of an [`Instruction`]: positions as integers, text as characters.
pub enum InstructionView {
    WriteText { row: int, col: int, value: Seq<char>, style: Style },
    WriteNumber { row: int, col: int, number: int, style: Style },
    MergeRange {
        first_row: int,
        first_col: int,
        last_row: int,
        last_col: int,
        value: Seq<char>,
        style: Style,
    },
    SetRowHeight { row: int, height: int },
    SetColumnWidth { col: int, width: int },
    EmbedImage { row: int, col: int },
}

impl DeepView for Instruction {
    type V = InstructionView;

    open spec fn deep_view(&self) -> InstructionView {
        match *self {
            Instruction::WriteText { row, col, value, style } => InstructionView::WriteText {
                row: row as int,
                col: col as int,
                value: value@,
                style,
            },
            Instruction::WriteNumber { row, col, number, style } => InstructionView::WriteNumber {
                row: row as int,
                col: col as int,
                number: number as int,
                style,
            },
            Instruction::MergeRange {
                first_row,
                first_col,
                last_row,
                last_col,
                value,
                style,
            } => InstructionView::MergeRange {
                first_row: first_row as int,
                first_col: first_col as int,
                last_row: last_row as int,
                last_col: last_col as int,
                value: value@,
                style,
            },
            Instruction::SetRowHeight { row, height } => InstructionView::SetRowHeight {
                row: row as int,
                height: height as int,
            },
            Instruction::SetColumnWidth { col, width } => InstructionView::SetColumnWidth {
                col: col as int,
                width: width as int,
            },
            Instruction::EmbedImage { row, col } => InstructionView::EmbedImage {
                row: row as int,
                col: col as int,
            },
        }
    }
}

/// A text cell.
pub open spec fn text_cell(row: int, col: int, value: Seq<char>, style: Style) -> InstructionView {
    InstructionView::WriteText { row, col, value, style }
}

/// A number cell.
pub open spec fn number_cell(row: int, col: int, number: int, style: Style) -> InstructionView {
    InstructionView::WriteNumber { row, col, number, style }
}

/// A merged rectangle that shows one text.
pub open spec fn merged(
    first_row: int,
    first_col: int,
    last_row: int,
    last_col: int,
    value: Seq<char>,
    style: Style,
) -> InstructionView {
    InstructionView::MergeRange { first_row, first_col, last_row, last_col, value, style }
}

/// Appends a text cell to the sheet.
pub fn put_text(ws: &mut Vec<Instruction>, row: u32, col: u16, value: String, style: Style)
    ensures
        final(ws).deep_view() == old(ws).deep_view().push(
            text_cell(row as int, col as int, value@, style),
        ),
{
    ws.push(Instruction::WriteText { row, col, value, style });
    assert(final(ws).deep_view() =~= old(ws).deep_view().push(
        text_cell(row as int, col as int, value@, style),
    ));
}

/// Appends a number cell to the sheet.
pub fn put_number(ws: &mut Vec<Instruction>, row: u32, col: u16, number: i64, style: Style)
    ensures
        final(ws).deep_view() == old(ws).deep_view().push(
            number_cell(row as int, col as int, number as int, style),
        ),
{
    ws.push(Instruction::WriteNumber { row, col, number, style });
    assert(final(ws).deep_view() =~= old(ws).deep_view().push(
        number_cell(row as int, col as int, number as int, style),
    ));
}

/// Appends a merged rectangle to the sheet.
pub fn put_merge(
    ws: &mut Vec<Instruction>,
    first_row: u32,
    first_col: u16,
    last_row: u32,
    last_col: u16,
    value: String,
    style: Style,
)
    ensures
        final(ws).deep_view() == old(ws).deep_view().push(
            merged(
                first_row as int,
                first_col as int,
                last_row as int,
                last_col as int,
                value@,
                style,
            ),
        ),
{
    ws.push(Instruction::MergeRange { first_row, first_col, last_row, last_col, value, style });
    assert(final(ws).deep_view() =~= old(ws).deep_view().push(
        merged(
            first_row as int,
            first_col as int,
            last_row as int,
            last_col as int,
            value@,
            style,
        ),
    ));
}

/// Appends an instruction that sets the height of a row.
pub fn put_row_height(ws: &mut Vec<Instruction>, row: u32, height: u16)
    ensures
        final(ws).deep_view() == old(ws).deep_view().push(
            InstructionView::SetRowHeight { row: row as int, height: height as int },
        ),
{
    ws.push(Instruction::SetRowHeight { row, height });
    assert(final(ws).deep_view() =~= old(ws).deep_view().push(
        InstructionView::SetRowHeight { row: row as int, height: height as int },
    ));
}

/// Appends an instruction that sets the width of a column.
pub fn put_column_width(ws: &mut Vec<Instruction>, col: u16, width: u16)
    ensures
        final(ws).deep_view() == old(ws).deep_view().push(
            InstructionView::SetColumnWidth { col: col as int, width: width as int },
        ),
{
    ws.push(Instruction::SetColumnWidth { col, width });
    assert(final(ws).deep_view() =~= old(ws).deep_view().push(
        InstructionView::SetColumnWidth { col: col as int, width: width as int },
    ));
}

/// Appends an instruction that embeds the report's image at a cell.
pub fn put_image(ws: &mut Vec<Instruction>, row: u32, col: u16)
    ensures
        final(ws).deep_view() == old(ws).deep_view().push(
            InstructionView::EmbedImage { row: row as int, col: col as int },
        ),
{
    ws.push(Instruction::EmbedImage { row, col });
    assert(final(ws).deep_view() =~= old(ws).deep_view().push(
        InstructionView::EmbedImage { row: row as int, col: col as int },
    ));
}

/// Moves the instructions of `more` to the end of `ws`.
pub fn put_all(ws: &mut Vec<Instruction>, more: Vec<Instruction>)
    ensures
        final(ws).deep_view() == old(ws).deep_view() + more.deep_view(),
{
    let mut more = more;
    let ghost added = more.deep_view();
    ws.append(&mut more);
    assert(final(ws).deep_view() =~= old(ws).deep_view() + added);
}

/// A value shown once for the rows `first..=last` of a column: a merged
/// range where that is more than one row, a plain text cell otherwise.
pub open spec fn span_text(first: int, last: int, col: int, value: Seq<char>, style: Style)
    -> InstructionView {
    if last > first {
        merged(first, col, last, col, value, style)
    } else {
        text_cell(first, col, value, style)
    }
}

/// A number shown once for the rows `first..=last` of a column: a merged
/// range with its numeral where that is more than one row, a number cell
/// otherwise.
pub open spec fn span_number(first: int, last: int, col: int, number: int, style: Style)
    -> InstructionView {
    if last > first {
        merged(first, col, last, col, decimal(number), style)
    } else {
        number_cell(first, col, number, style)
    }
}

/// Shows a text once for the rows `start..=end` of a column.
pub fn merge_or_write_str(
    ws: &mut Vec<Instruction>,
    start: u32,
    end: u32,
    col: u16,
    val: String,
    style: Style,
)
    ensures
        final(ws).deep_view() == old(ws).deep_view().push(
            span_text(start as int, end as int, col as int, val@, style),
        ),
{
    if end > start {
        put_merge(ws, start, col, end, col, val, style);
    } else {
        put_text(ws, start, col, val, style);
    }
}

/// Shows a number once for the rows `start..=end` of a column.
pub fn merge_or_write_num(
    ws: &mut Vec<Instruction>,
    start: u32,
    end: u32,
    col: u16,
    val: i64,
    style: Style,
)
    ensures
        final(ws).deep_view() == old(ws).deep_view().push(
            span_number(start as int, end as int, col as int, val as int, style),
        ),
{
    if end > start {
        put_merge(ws, start, col, end, col, decimal_string(val), style);
    } else {
        put_number(ws, start, col, val, style);
    }
}

/// The row that lies `count` rows below `row`, if the sheet's row numbers
/// reach that far.
pub fn advance(row: u32, count: usize) -> (next: Option<u32>)
    ensures
        match next {
            Some(n) => n == row + count,
            None => row + count > u32::MAX,
        },
{
    if count > (u32::MAX - row) as usize {
        None
    } else {
        Some(row + count as u32)
    }
}

/// Why a layout could not be made.
#[derive(Debug, Clone, Copy, PartialEq, Eq, Structural)]
pub enum LayoutError {
    /// The layout needs a row beyond the last row number there is.
    RowOverflow,
}

/// A stretch of a sheet: its instructions and the first row below it.
pub struct Table {
    pub instructions: Vec<Instruction>,
    pub next_row: u32,
}

} // verus!
