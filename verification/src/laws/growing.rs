//! What appending, clearing, merging and widening make of a sheet, in bytes.

use vstd::prelude::*;
use crate::bytes::{
    find, insert, lemma_find_from, lemma_find_from_is, lemma_rfind, occurs_at, replace, rfind,
};
use crate::coord::{cell_name, column_letters};
use crate::error::ErrorView;
use crate::laws::cells::lemma_digits;
use crate::laws::columns::{law_column_round_trip, lemma_cell_name_parts};
use crate::laws::merging::{ends_once, law_merge_grows, merge_list};
use crate::laws::naming::lemma_first_digit;
use crate::laws::picture::{
    cells_picture, lemma_data_tidy, lemma_one_row, lemma_plain_head, lemma_rfind_of_itself,
    lemma_rows_parts, lemma_written_picture, name_in, row_picture, rows_picture, CellPicture,
    RowPicture,
};
use crate::laws::pieces::lemma_byte_at;
use crate::laws::placing::lemma_written_row;
use crate::laws::shapes::lemma_sheet_ends;
use crate::laws::tidy::{lemma_rfind_pieces, lemma_tidy_join, tidy};
use crate::merge::{cells_merged, merge_tag, sheet_cleared};
use crate::paint::{column_painted, column_style};
use crate::sheet::{
    cell_set, cells_set, lemma_quote, row_appended, rows_placed, table_appended, table_cells,
    table_placed, table_rows, written_row, Placing, SheetOutcome, SheetView,
};
use crate::tags::{lemma_bracket, tag_at};
use crate::text::{
    decimal, is_digit, lemma_decimal_digits, lemma_utf8_ascii, lemma_utf8_concat, utf8,
};

verus! {

// ---- rows at the end ----------------------------------------------------------------------

/// The cells for values, from the column `column` on: one for each value, without a style.
pub open spec fn cells_for(column: nat, values: Seq<Seq<char>>) -> Seq<CellPicture> {
    Seq::new(
        values.len(),
        |i: int|
            CellPicture { column: (column + i) as nat, style: None, value: Some(values[i]) },
    )
}

/// The rows for a table, from the row behind `last_row` on: one for each row of the table, with its
/// cells from the first column on.
pub open spec fn rows_for(last_row: u32, table: Seq<Seq<Seq<char>>>) -> Seq<RowPicture> {
    Seq::new(
        table.len(),
        |i: int|
            RowPicture {
                number: (last_row + 1 + i) as u32,
                style: None,
                cells: cells_for(0, table[i]),
            },
    )
}

/// The cells of a row that is written, as they look.
proof fn lemma_cells_for(column: nat, number: u32, values: Seq<Seq<char>>)
    requires
        column + values.len() <= u32::MAX,
    ensures
        table_cells(column, number, values) == cells_picture(number, cells_for(column, values)),
    decreases values.len(),
{
    let cells = cells_for(column, values);
    if values.len() > 0 {
        let front = values.drop_last();
        lemma_cells_for(column, number, front);
        assert(cells.drop_last() =~= cells_for(column, front));
        let last = (column + values.len() - 1) as nat;
        lemma_written_picture(number, last, values.last());
        assert(name_in(number, last) == cell_name(last, number as nat));
        assert(cells.last() == (CellPicture { column: last, style: None, value: Some(values.last()) }));
    }
}

/// A row that is written, as it looks.
proof fn lemma_row_for(number: u32, values: Seq<Seq<char>>)
    requires
        values.len() <= u32::MAX,
    ensures
        written_row(number, table_cells(0, number, values)) == row_picture(
            RowPicture { number, style: None, cells: cells_for(0, values) },
        ),
{
    lemma_cells_for(0, number, values);
    lemma_written_row(number, table_cells(0, number, values));
    lemma_plain_head(number);
    lemma_one_row(RowPicture { number, style: None, cells: cells_for(0, values) });
}

/// Appending a row puts it in front of the end of the data, with the number behind the last one, and
/// every value in a cell of its own, from the first column on. It is the last row then.
pub proof fn law_row_appended(a: Seq<u8>, b: Seq<u8>, last_row: u32, values: Seq<Seq<char>>)
    requires
        find(b, utf8("</sheetData>"@)) is None,
        tidy(a),
        tidy(b),
        last_row < u32::MAX,
        values.len() <= u32::MAX,
    ensures
        ({
            let end = utf8("</sheetData>"@);
            let number = (last_row + 1) as u32;
            let row = RowPicture { number, style: None, cells: cells_for(0, values) };
            row_appended(SheetView { xml: a + end + b, last_row }, values) == Some(
                SheetOutcome {
                    sheet: SheetView { xml: a + row_picture(row) + end + b, last_row: number },
                    result: Ok(()),
                },
            )
        }),
{
    let end = utf8("</sheetData>"@);
    let number = (last_row + 1) as u32;
    let row = RowPicture { number, style: None, cells: cells_for(0, values) };
    lemma_last_end(a, b);
    lemma_row_for(number, values);
    assert(insert(a + end + b, a.len() as int, row_picture(row)) =~= a + row_picture(row) + end + b);
}

/// The last end of the data.
proof fn lemma_last_end(a: Seq<u8>, b: Seq<u8>)
    requires
        find(b, utf8("</sheetData>"@)) is None,
        tidy(a),
        tidy(b),
    ensures
        rfind(a + utf8("</sheetData>"@) + b, utf8("</sheetData>"@)) == Some(a.len() as int),
{
    let end = utf8("</sheetData>"@);
    lemma_sheet_ends();
    lemma_data_tidy();
    lemma_tidy_join(end, b);
    assert(a + end + b =~= a + (end + b));
    lemma_rfind_pieces(a, end + b, end);
    lemma_rfind_pieces(end, b, end);
    lemma_rfind(b, end);
    lemma_find_from(b, end, 0);
    lemma_rfind_of_itself(end);
}

/// The rows of a table that is written, as they look.
proof fn lemma_rows_for(last_row: u32, table: Seq<Seq<Seq<char>>>)
    requires
        last_row + table.len() <= u32::MAX,
        forall|i: int| 0 <= i < table.len() ==> (#[trigger] table[i]).len() <= u32::MAX,
    ensures
        table_rows(last_row, table) == rows_picture(rows_for(last_row, table)),
    decreases table.len(),
{
    let rows = rows_for(last_row, table);
    if table.len() > 0 {
        let front = table.drop_last();
        assert forall|i: int| 0 <= i < front.len() implies (#[trigger] front[i]).len() <= u32::MAX by {
            assert(front[i] == table[i]);
        }
        lemma_rows_for(last_row, front);
        assert(rows.drop_last() =~= rows_for(last_row, front));
        assert(table[table.len() - 1].len() <= u32::MAX);
        lemma_row_for((last_row + table.len()) as u32, table.last());
    }
}

/// Appending a table puts its rows in front of the end of the data, in order, with the numbers behind
/// the last one, and every value in a cell of its own, from the first column on. The last of them is
/// the last row then.
pub proof fn law_table_appended(
    a: Seq<u8>,
    b: Seq<u8>,
    last_row: u32,
    table: Seq<Seq<Seq<char>>>,
)
    requires
        find(b, utf8("</sheetData>"@)) is None,
        tidy(a),
        tidy(b),
        last_row + table.len() <= u32::MAX,
        forall|i: int| 0 <= i < table.len() ==> (#[trigger] table[i]).len() <= u32::MAX,
    ensures
        ({
            let end = utf8("</sheetData>"@);
            table_appended(SheetView { xml: a + end + b, last_row }, table) == Some(
                SheetOutcome {
                    sheet: SheetView {
                        xml: a + rows_picture(rows_for(last_row, table)) + end + b,
                        last_row: (last_row + table.len()) as u32,
                    },
                    result: Ok(()),
                },
            )
        }),
{
    let end = utf8("</sheetData>"@);
    let rows = rows_picture(rows_for(last_row, table));
    lemma_last_end(a, b);
    lemma_rows_for(last_row, table);
    assert(insert(a + end + b, a.len() as int, rows) =~= a + rows + end + b);
}

/// A sheet without an end of its data takes no rows: the document stays as it was.
pub proof fn law_append_refused(xml: Seq<u8>, last_row: u32, table: Seq<Seq<Seq<char>>>)
    requires
        find(xml, utf8("</sheetData>"@)) is None,
        last_row + table.len() <= u32::MAX,
    ensures
        ({
            let sheet = SheetView { xml, last_row };
            let raised = SheetView { xml, last_row: (last_row + table.len()) as u32 };
            &&& table_appended(sheet, table) == Some(
                SheetOutcome {
                    sheet: raised,
                    result: Err(ErrorView::XmlTagNotFound("</sheetData>"@)),
                },
            )
            &&& table.len() == 1 ==> row_appended(sheet, table[0]) == Some(
                SheetOutcome {
                    sheet: raised,
                    result: Err(ErrorView::XmlTagNotFound("</sheetData>"@)),
                },
            )
        }),
{
    lemma_rfind(xml, utf8("</sheetData>"@));
    lemma_find_from(xml, utf8("</sheetData>"@), 0);
}

// ---- tables -------------------------------------------------------------------------------

/// The rows for a table that starts at the column `column` and the row `first`.
pub open spec fn rows_from(
    column: nat,
    first: u32,
    table: Seq<Seq<Seq<char>>>,
) -> Seq<RowPicture> {
    Seq::new(
        table.len(),
        |i: int|
            RowPicture {
                number: (first + i) as u32,
                style: None,
                cells: cells_for(column, table[i]),
            },
    )
}

/// The table fits behind the rows of a sheet: its columns and rows can be numbered.
pub open spec fn fits_behind(
    last_row: u32,
    column: usize,
    first: u32,
    table: Seq<Seq<Seq<char>>>,
) -> bool {
    &&& last_row < first
    &&& first + table.len() <= u32::MAX
    &&& forall|r: int| 0 <= r < table.len() ==> column + (#[trigger] table[r]).len() <= u32::MAX
}

/// Rows of a table behind those of a sheet.
#[verifier::spinoff_prover]
#[verifier::rlimit(60)]
proof fn lemma_rows_behind(
    sheet: SheetView,
    pending: Seq<u8>,
    column: usize,
    first: u32,
    table: Seq<Seq<Seq<char>>>,
    k: int,
)
    requires
        0 <= k <= table.len(),
        sheet.last_row < first + k,
        first + table.len() <= u32::MAX,
        forall|r: int| 0 <= r < table.len() ==> column + (#[trigger] table[r]).len() <= u32::MAX,
    ensures
        rows_placed(sheet, pending, column, first, table, k) == Some(
            Placing {
                sheet: SheetView {
                    last_row: if k < table.len() {
                        (first + table.len() - 1) as u32
                    } else {
                        sheet.last_row
                    },
                    ..sheet
                },
                pending: pending + rows_picture(rows_from(column as nat, first, table).skip(k)),
                result: Ok(()),
            },
        ),
    decreases table.len() - k,
{
    let rows = rows_from(column as nat, first, table);
    if k == table.len() {
        assert(rows.skip(k) =~= Seq::empty());
        assert(pending + rows_picture(rows.skip(k)) =~= pending);
    } else {
        let number = (first + k) as u32;
        assert((k as usize) as u32 == k);
        assert(column + table[k].len() <= u32::MAX);
        let row = RowPicture { number, style: None, cells: cells_for(column as nat, table[k]) };
        lemma_cells_for(column as nat, number, table[k]);
        let cells = table_cells(column as nat, number, table[k]);
        lemma_written_row(number, cells);
        lemma_plain_head(number);
        lemma_one_row(row);
        let next = SheetView { last_row: number, ..sheet };
        lemma_rows_behind(next, pending + row_picture(row), column, first, table, k + 1);
        assert(rows.skip(k) =~= seq![row] + rows.skip(k + 1));
        lemma_rows_parts(seq![row], rows.skip(k + 1));
        assert(pending + row_picture(row) + rows_picture(rows.skip(k + 1)) =~= pending
            + rows_picture(rows.skip(k)));
    }
}

/// A table that is placed behind the rows of a sheet stands in front of the end of the data: row under
/// row from the row that was asked for, and cell by cell from the column that was asked for. Its last
/// row is the last row then.
pub proof fn law_table_behind(
    a: Seq<u8>,
    b: Seq<u8>,
    last_row: u32,
    column: u32,
    first: u32,
    table: Seq<Seq<Seq<char>>>,
)
    requires
        find(b, utf8("</sheetData>"@)) is None,
        tidy(a),
        tidy(b),
        column < u32::MAX,
        fits_behind(last_row, column as usize, first, table),
    ensures
        ({
            let end = utf8("</sheetData>"@);
            let rows = rows_picture(rows_from(column as nat, first, table));
            table_placed(
                SheetView { xml: a + end + b, last_row },
                column_letters(column as nat) + decimal(first as nat),
                table,
            ) == Some(
                SheetOutcome {
                    sheet: SheetView {
                        xml: a + rows + end + b,
                        last_row: if table.len() > 0 {
                            (first + table.len() - 1) as u32
                        } else {
                            last_row
                        },
                    },
                    result: Ok(()),
                },
            )
        }),
{
    let end = utf8("</sheetData>"@);
    let sheet = SheetView { xml: a + end + b, last_row };
    let rows = rows_from(column as nat, first, table);
    let coord = column_letters(column as nat) + decimal(first as nat);
    assert(coord == cell_name(column as nat, first as nat));
    lemma_cell_name_parts(column as nat, first);
    law_column_round_trip(column as nat);
    lemma_rows_behind(sheet, Seq::empty(), column as usize, first, table, 0);
    assert(rows.skip(0) =~= rows);
    assert(Seq::<u8>::empty() + rows_picture(rows) =~= rows_picture(rows));
    lemma_last_end(a, b);
    assert(insert(a + end + b, a.len() as int, rows_picture(rows)) =~= a + rows_picture(rows) + end
        + b);
}

/// A table goes nowhere without a row to start at, and nothing changes then.
pub proof fn law_table_refused(sheet: SheetView, coord: Seq<char>, table: Seq<Seq<Seq<char>>>)
    requires
        forall|i: int| 0 <= i < coord.len() ==> !is_digit(#[trigger] coord[i]),
    ensures
        table_placed(sheet, coord, table) == Some(
            SheetOutcome { sheet, result: Err(ErrorView::InvalidCoordinate(coord)) },
        ),
{
    let none = Seq::<char>::empty();
    lemma_first_digit(coord, none, 0);
    assert(coord + none =~= coord);
}

/// Setting the cells of a row is setting the first of them and then the others, one column further on.
pub proof fn law_cells_set(
    sheet: SheetView,
    column: usize,
    number: u32,
    values: Seq<Seq<char>>,
    j: int,
)
    requires
        0 <= j,
        column + values.len() <= usize::MAX,
    ensures
        j >= values.len() ==> cells_set(sheet, column, number, values, j) == Some(
            SheetOutcome { sheet, result: Ok(()) },
        ),
        j < values.len() ==> match cell_set(
            sheet,
            column_letters((column + j) as nat) + decimal(number as nat),
            values[j],
        ) {
            None => cells_set(sheet, column, number, values, j) is None,
            Some(outcome) => match outcome.result {
                Err(_) => cells_set(sheet, column, number, values, j) == Some(outcome),
                Ok(_) => cells_set(sheet, column, number, values, j) == cells_set(
                    outcome.sheet,
                    column,
                    number,
                    values,
                    j + 1,
                ),
            },
        },
{
    if j < values.len() {
        assert(column_letters((column + j) as nat) + decimal(number as nat) == cell_name(
            (column + j) as nat,
            number as nat,
        ));
    }
}

// ---- clearing -----------------------------------------------------------------------------

/// Clearing a sheet leaves what stands up to the start of its data and from their end on, and nothing
/// in between. No row is the last one then.
pub proof fn law_cleared(a: Seq<u8>, t: Seq<u8>, inner: Seq<u8>, b: Seq<u8>, last_row: u32)
    requires
        ({
            let front = a + utf8("<sheetData"@) + t + utf8(">"@);
            let xml = front + inner + utf8("</sheetData>"@) + b;
            &&& find(xml, utf8("<sheetData"@)) == Some(a.len() as int)
            &&& find(xml, utf8("</sheetData>"@)) == Some((front.len() + inner.len()) as int)
            &&& forall|i: int| 0 <= i < t.len() ==> #[trigger] t[i] != 62
        }),
    ensures
        ({
            let front = a + utf8("<sheetData"@) + t + utf8(">"@);
            let end = utf8("</sheetData>"@);
            sheet_cleared(SheetView { xml: front + inner + end + b, last_row }) == Some(
                SheetOutcome {
                    sheet: SheetView { xml: front + end + b, last_row: 0 },
                    result: Ok(()),
                },
            )
        }),
{
    let open = utf8("<sheetData"@);
    let bracket = utf8(">"@);
    let front = a + open + t + bracket;
    let end = utf8("</sheetData>"@);
    let xml = front + inner + end + b;
    lemma_bracket();
    lemma_open_bytes();
    let at = (a.len() + open.len() + t.len()) as int;
    assert forall|p: int| a.len() <= p < at implies !#[trigger] occurs_at(xml, bracket, p) by {
        if occurs_at(xml, bracket, p) {
            lemma_byte_at(xml, bracket, p, 0);
            if p < a.len() + open.len() {
                assert(xml[p] == open[p - a.len()]);
            } else {
                assert(xml[p] == t[p - a.len() - open.len()]);
            }
        }
    }
    assert(xml.subrange(at, at + bracket.len()) =~= bracket);
    lemma_find_from_is(xml, bracket, a.len() as int, at);
    assert(replace(xml, front.len() as int, (front.len() + inner.len()) as int, Seq::empty())
        =~= front + end + b);
}

/// The bytes that the data of a sheet start with.
proof fn lemma_open_bytes()
    ensures
        utf8("<sheetData"@).len() == 10,
        forall|i: int| 0 <= i < 10 ==> #[trigger] utf8("<sheetData"@)[i] != 62,
{
    reveal_strlit("<sheetData");
    lemma_utf8_ascii("<sheetData"@);
}

/// A sheet without data is not cleared.
pub proof fn law_clear_refused(sheet: SheetView)
    ensures
        find(sheet.xml, utf8("<sheetData"@)) is None ==> sheet_cleared(sheet) == Some(
            SheetOutcome { sheet, result: Err(ErrorView::XmlTagNotFound("<sheetData>"@)) },
        ),
        find(sheet.xml, utf8("<sheetData"@)) is Some && find(sheet.xml, utf8(">"@)) is None
            ==> sheet_cleared(sheet) == Some(
            SheetOutcome { sheet, result: Err(ErrorView::MalformedXmlTag("<sheetData>"@)) },
        ),
        find(sheet.xml, utf8("<sheetData"@)) matches Some(at) ==> (find(
            sheet.xml.skip(at),
            utf8(">"@),
        ) is Some && find(sheet.xml, utf8("</sheetData>"@)) is None ==> sheet_cleared(sheet) == Some(
            SheetOutcome { sheet, result: Err(ErrorView::XmlTagNotFound("</sheetData>"@)) },
        )),
{
    let open = utf8("<sheetData"@);
    let bracket = utf8(">"@);
    lemma_find_from(sheet.xml, open, 0);
    lemma_find_from(sheet.xml, bracket, 0);
    if let Some(at) = find(sheet.xml, open) {
        let rest = sheet.xml.skip(at);
        lemma_find_from(sheet.xml, bracket, at);
        lemma_find_from(rest, bracket, 0);
        if let Some(p) = find(rest, bracket) {
            assert(sheet.xml.subrange(at + p, at + p + bracket.len()) =~= rest.subrange(
                p,
                p + bracket.len() as int,
            ));
            assert(occurs_at(sheet.xml, bracket, at + p));
        }
    }
}

// ---- merging ------------------------------------------------------------------------------

/// Merging a range in a sheet without merged ranges puts a list with that range behind the data.
pub proof fn law_first_range_merged(a: Seq<u8>, b: Seq<u8>, last_row: u32, range: Seq<char>)
    requires
        find(a + utf8("</sheetData>"@) + b, utf8("</sheetData>"@)) == Some(a.len() as int),
        find(a + utf8("</sheetData>"@) + b, utf8("<mergeCells"@)) is None,
    ensures
        cells_merged(SheetView { xml: a + utf8("</sheetData>"@) + b, last_row }, range) == Some(
            SheetOutcome {
                sheet: SheetView {
                    xml: a + utf8("</sheetData>"@) + utf8(
                        "<mergeCells count=\"1\"><mergeCell ref=\""@ + range + "\"/></mergeCells>"@,
                    ) + b,
                    last_row,
                },
                result: Ok(()),
            },
        ),
{
    let end = utf8("</sheetData>"@);
    let list = "<mergeCells count=\"1\"><mergeCell ref=\""@ + range + "\"/></mergeCells>"@;
    assert("<mergeCells count=\"1\">"@ + merge_tag(range) + "</mergeCells>"@ =~= list) by {
        reveal_strlit("<mergeCells count=\"1\">");
        reveal_strlit("<mergeCell ref=\"");
        reveal_strlit("<mergeCells count=\"1\"><mergeCell ref=\"");
        reveal_strlit("\"/>");
        reveal_strlit("</mergeCells>");
        reveal_strlit("\"/></mergeCells>");
    }
    assert(insert(a + end + b, (a.len() + end.len()) as int, utf8(list)) =~= a + end + utf8(list)
        + b);
}

/// Merging a range in a sheet with a list of merged ranges behind its data puts the range at the end of
/// the list and raises the count by one.
pub proof fn law_next_range_merged(
    a: Seq<u8>,
    count: u32,
    tags: Seq<char>,
    b: Seq<u8>,
    last_row: u32,
    range: Seq<char>,
)
    requires
        find(a + utf8("</sheetData>"@) + b, utf8("</sheetData>"@)) == Some(a.len() as int),
        find(a + utf8("</sheetData>"@) + b, utf8("<mergeCells"@)) is None,
        count < u32::MAX,
        ends_once(tags),
    ensures
        ({
            let front = a + utf8("</sheetData>"@);
            let list = utf8(
                "<mergeCells count=\""@ + decimal(count as nat) + "\">"@ + tags + "</mergeCells>"@,
            );
            let grown = utf8(
                "<mergeCells count=\""@ + decimal((count + 1) as nat) + "\">"@ + tags
                    + "<mergeCell ref=\""@ + range + "\"/></mergeCells>"@,
            );
            cells_merged(SheetView { xml: front + list + b, last_row }, range) == Some(
                SheetOutcome {
                    sheet: SheetView { xml: front + grown + b, last_row },
                    result: Ok(()),
                },
            )
        }),
{
    let end = utf8("</sheetData>"@);
    let front = a + end;
    let plain = SheetView { xml: front + b, last_row };
    let next = (count + 1) as nat;
    law_merge_grows(plain, count, tags, range);
    let list = utf8(merge_list(count as nat, tags));
    let grown = utf8(merge_list(next, tags + merge_tag(range)));
    let e = (a.len() + end.len()) as int;
    assert(insert(front + b, e, list) =~= front + list + b);
    assert(insert(front + b, e, grown) =~= front + grown + b);
    assert("<mergeCells count=\""@ + decimal(next) + "\">"@ + tags + "<mergeCell ref=\""@ + range
        + "\"/></mergeCells>"@ =~= merge_list(next, tags + merge_tag(range))) by {
        reveal_strlit("\"/>");
        reveal_strlit("</mergeCells>");
        reveal_strlit("\"/></mergeCells>");
    }
}

/// A sheet without an end of its data takes no merged range.
pub proof fn law_merge_refused(sheet: SheetView, range: Seq<char>)
    requires
        find(sheet.xml, utf8("</sheetData>"@)) is None,
    ensures
        cells_merged(sheet, range) == Some(
            SheetOutcome { sheet, result: Err(ErrorView::XmlTagNotFound("</sheetData>"@)) },
        ),
{
}

// ---- columns ------------------------------------------------------------------------------

/// How the tag of a column starts: the number is that behind its index.
pub open spec fn column_front(column: u32) -> Seq<char> {
    "<col min=\""@ + decimal((column + 1) as nat) + "\" max=\""@ + decimal((column + 1) as nat)
        + "\""@
}

/// Giving a style to a column that has no tag, in a sheet with a list of columns, puts a tag for the
/// column first in the list.
pub proof fn law_column_listed(
    a: Seq<u8>,
    t: Seq<u8>,
    b: Seq<u8>,
    last_row: u32,
    column: u32,
    style: u32,
)
    requires
        column < u32::MAX,
        ({
            let xml = a + utf8("<cols"@) + t + utf8(">"@) + b;
            &&& find(xml, utf8(column_front(column))) is None
            &&& find(xml, utf8("<cols"@)) == Some(a.len() as int)
            &&& forall|i: int| 0 <= i < t.len() ==> #[trigger] t[i] != 62
        }),
    ensures
        ({
            let front = a + utf8("<cols"@) + t + utf8(">"@);
            let tag = utf8(column_front(column) + " style=\""@ + decimal(style as nat) + "\"/>"@);
            &&& column_painted(SheetView { xml: front + b, last_row }, column, style) == Some(
                SheetOutcome {
                    sheet: SheetView { xml: front + tag + b, last_row },
                    result: Ok(()),
                },
            )
            &&& column_style(front + b, column) == Ok::<Option<u32>, ErrorView>(None)
        }),
{
    let open = utf8("<cols"@);
    let bracket = utf8(">"@);
    let front = a + open + t + bracket;
    let xml = front + b;
    lemma_bracket();
    assert(open.len() == 5 && forall|i: int| 0 <= i < 5 ==> #[trigger] open[i] != 62) by {
        reveal_strlit("<cols");
        lemma_utf8_ascii("<cols"@);
    }
    let at = (a.len() + open.len() + t.len()) as int;
    assert forall|p: int| a.len() <= p < at implies !#[trigger] occurs_at(xml, bracket, p) by {
        if occurs_at(xml, bracket, p) {
            lemma_byte_at(xml, bracket, p, 0);
            if p < a.len() + open.len() {
                assert(xml[p] == open[p - a.len()]);
            } else {
                assert(xml[p] == t[p - a.len() - open.len()]);
            }
        }
    }
    assert(xml.subrange(at, at + bracket.len()) =~= bracket);
    lemma_find_from_is(xml, bracket, a.len() as int, at);
    let text = column_front(column) + " style=\""@ + decimal(style as nat) + "\"/>"@;
    assert(column_front(column) + (" style=\""@ + decimal(style as nat) + "\"/>"@) =~= text);
    assert(insert(xml, front.len() as int, utf8(text)) =~= front + utf8(text) + b);
}

/// Giving a style to a column in a sheet without a list of columns puts a list with that column in front
/// of the data.
pub proof fn law_first_column_listed(
    a: Seq<u8>,
    b: Seq<u8>,
    last_row: u32,
    column: u32,
    style: u32,
)
    requires
        column < u32::MAX,
        ({
            let xml = a + utf8("<sheetData"@) + b;
            &&& find(xml, utf8(column_front(column))) is None
            &&& find(xml, utf8("<cols"@)) is None
            &&& find(xml, utf8("<sheetData"@)) == Some(a.len() as int)
        }),
    ensures
        ({
            let data = utf8("<sheetData"@);
            let list = utf8(
                "<cols>"@ + column_front(column) + " style=\""@ + decimal(style as nat)
                    + "\"/></cols>"@,
            );
            &&& column_painted(SheetView { xml: a + data + b, last_row }, column, style) == Some(
                SheetOutcome {
                    sheet: SheetView { xml: a + list + data + b, last_row },
                    result: Ok(()),
                },
            )
            &&& column_style(a + data + b, column) == Ok::<Option<u32>, ErrorView>(None)
        }),
{
    let data = utf8("<sheetData"@);
    let text = "<cols>"@ + column_front(column) + " style=\""@ + decimal(style as nat)
        + "\"/></cols>"@;
    assert("<cols>"@ + (column_front(column) + (" style=\""@ + decimal(style as nat) + "\"/>"@))
        + "</cols>"@ =~= text) by {
        reveal_strlit("\"/>");
        reveal_strlit("</cols>");
        reveal_strlit("\"/></cols>");
    }
    assert(insert(a + data + b, a.len() as int, utf8(text)) =~= a + utf8(text) + data + b);
}

/// A sheet without columns and without data takes no style of a column, and a column with the largest
/// index has no number.
pub proof fn law_column_refused(sheet: SheetView, column: u32, style: u32)
    ensures
        column == u32::MAX ==> column_painted(sheet, column, style) is None,
        column < u32::MAX && find(sheet.xml, utf8(column_front(column))) is None && find(
            sheet.xml,
            utf8("<cols"@),
        ) is None && find(sheet.xml, utf8("<sheetData"@)) is None ==> column_painted(
            sheet,
            column,
            style,
        ) == Some(SheetOutcome { sheet, result: Err(ErrorView::XmlTagNotFound("<sheetData>"@)) }),
{
}

/// Giving a style to a column whose tag has one changes the style in the tag and nothing else, and the
/// style that the column has is the one in its tag.
#[verifier::spinoff_prover]
#[verifier::rlimit(60)]
pub proof fn law_column_restyled(
    a: Seq<u8>,
    t: Seq<u8>,
    was: u32,
    u: Seq<u8>,
    b: Seq<u8>,
    last_row: u32,
    column: u32,
    style: u32,
)
    requires
        column < u32::MAX,
        ({
            let front = utf8(column_front(column));
            let value = utf8(" style=\""@ + decimal(was as nat) + "\""@);
            let xml = a + front + t + value + u + utf8(">"@) + b;
            &&& find(xml, front) == Some(a.len() as int)
            &&& forall|i: int| 0 <= i < t.len() ==> #[trigger] t[i] != 62
            &&& forall|i: int| 0 <= i < u.len() ==> #[trigger] u[i] != 62
            &&& find(front + t + value + u + utf8(">"@), utf8(" style=\""@)) == Some(
                (front.len() + t.len()) as int,
            )
        }),
    ensures
        ({
            let front = utf8(column_front(column));
            let value = utf8(" style=\""@ + decimal(was as nat) + "\""@);
            let new = utf8(" style=\""@ + decimal(style as nat) + "\""@);
            let xml = a + front + t + value + u + utf8(">"@) + b;
            &&& column_painted(SheetView { xml, last_row }, column, style) == Some(
                SheetOutcome {
                    sheet: SheetView { xml: a + front + t + new + u + utf8(">"@) + b, last_row },
                    result: Ok(()),
                },
            )
            &&& column_style(xml, column) == Ok::<Option<u32>, ErrorView>(Some(was))
        }),
{
    let front = utf8(column_front(column));
    let digits = utf8(decimal(was as nat));
    let fresh = utf8(decimal(style as nat));
    let key = utf8(" style=\""@);
    let quote = utf8("\""@);
    let value = utf8(" style=\""@ + decimal(was as nat) + "\""@);
    let new = utf8(" style=\""@ + decimal(style as nat) + "\""@);
    let tag = front + t + value + u + utf8(">"@);
    let xml = a + front + t + value + u + utf8(">"@) + b;
    lemma_bracket();
    lemma_quote();
    lemma_digits(was as nat);
    lemma_utf8_concat(" style=\""@, decimal(was as nat));
    lemma_utf8_concat(" style=\""@ + decimal(was as nat), "\""@);
    lemma_utf8_concat(" style=\""@, decimal(style as nat));
    lemma_utf8_concat(" style=\""@ + decimal(style as nat), "\""@);
    assert(key.len() == 8 && forall|i: int| 0 <= i < 8 ==> #[trigger] key[i] != 62) by {
        reveal_strlit(" style=\"");
        lemma_utf8_ascii(" style=\""@);
    }
    lemma_column_front(column);
    assert(value == key + digits + quote);
    assert(new == key + fresh + quote);
    // the tag
    assert(xml =~= a + tag + b);
    let rest = tag + b;
    assert(xml =~= a + rest);
    let last = tag.len() - 1;
    assert forall|p: int| a.len() <= p < a.len() + last implies !#[trigger] occurs_at(
        xml,
        utf8(">"@),
        p,
    ) by {
        let q = p - a.len();
        if occurs_at(xml, utf8(">"@), p) {
            lemma_byte_at(xml, utf8(">"@), p, 0);
            assert(xml[p] == tag[q]);
            if q < front.len() {
                assert(tag[q] == front[q]);
            } else if q < front.len() + t.len() {
                assert(tag[q] == t[q - front.len()]);
            } else if q < front.len() + t.len() + value.len() {
                let r = q - front.len() - t.len();
                assert(tag[q] == value[r]);
                if 8 <= r < 8 + digits.len() {
                    assert(value[r] == digits[r - 8]);
                }
            } else {
                assert(tag[q] == u[q - front.len() - t.len() - value.len()]);
            }
        }
    }
    assert(xml.subrange(a.len() + last, a.len() + last + 1) =~= utf8(">"@));
    lemma_find_from_is(xml, utf8(">"@), a.len() as int, a.len() + last);
    assert(xml.subrange(a.len() as int, (a.len() + tag.len()) as int) =~= tag);
    assert(tag_at(xml, a.len() as int) == tag);
    // the style
    let start = (front.len() + t.len() + 8) as int;
    let end = start + digits.len();
    assert forall|p: int| start <= p < end implies !#[trigger] occurs_at(tag, quote, p) by {
        if occurs_at(tag, quote, p) {
            lemma_byte_at(tag, quote, p, 0);
            assert(tag[p] == digits[p - start]);
        }
    }
    assert(tag.subrange(end, end + 1) =~= quote);
    lemma_find_from_is(tag, quote, start, end);
    assert(tag.subrange(start, end) =~= digits);
    let set = front + t + new + u + utf8(">"@);
    assert(replace(tag, start, end, fresh) =~= set);
    assert(replace(xml, a.len() as int, (a.len() + tag.len()) as int, set) =~= a + front + t + new + u
        + utf8(">"@) + b);
}

/// The start of the tag of a column holds no end of a tag.
proof fn lemma_column_front(column: u32)
    requires
        column < u32::MAX,
    ensures
        forall|i: int|
            0 <= i < utf8(column_front(column)).len() ==> #[trigger] utf8(column_front(column))[i]
                != 62,
        utf8(column_front(column)).len() > 0,
{
    let digits = decimal((column + 1) as nat);
    let text = column_front(column);
    lemma_decimal_digits((column + 1) as nat);
    reveal_strlit("<col min=\"");
    reveal_strlit("\" max=\"");
    reveal_strlit("\"");
    assert forall|i: int| 0 <= i < text.len() implies '\0' <= #[trigger] text[i] <= '\u{7f}'
        && text[i] != '>' by {
        let n = digits.len();
        if 10 <= i < 10 + n {
            assert(text[i] == digits[i - 10]);
            assert(is_digit(digits[i - 10]));
        } else if 17 + n <= i < 17 + 2 * n {
            assert(text[i] == digits[i - 17 - n]);
            assert(is_digit(digits[i - 17 - n]));
        }
    }
    assert(vstd::utf8::is_ascii_chars(text));
    lemma_utf8_ascii(text);
    assert forall|i: int| 0 <= i < utf8(text).len() implies #[trigger] utf8(text)[i] != 62 by {
        assert(utf8(text)[i] == text[i] as u8);
    }
}

} // verus!
