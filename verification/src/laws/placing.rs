//! Rows that are set cell by cell behind the others.

use vstd::prelude::*;
use crate::bytes::{
    find_from, insert, lemma_find_from, lemma_rfind, lemma_rfind_is, occurs_at, rfind,
};
use crate::coord::{cell_name, column_letters, is_cell_name};
use crate::laws::bodies::{
    body_with, is_body, lemma_body_insert, lemma_cell_set, lemma_later_of_cell, lemma_later_pieces,
    lemma_slot_pieces,
};
use crate::laws::cells::{
    body_of, can_hold, is_row, lemma_around_row, lemma_bare_body, lemma_digits, lemma_new_head,
    lemma_row_made, lemma_row_there, lemma_set_between, new_head,
};
use crate::laws::columns::{
    lemma_cell_name_parts, lemma_column_letters_value, lemma_letter_bytes,
    lemma_letters_are_letters,
};
use crate::laws::commuting::lemma_other_element;
use crate::laws::pieces::{law_plain_is_not_escaped, lemma_byte_at};
use crate::laws::rows::{
    lemma_is_between, lemma_slot_of_row, lemma_slot_order, lemma_stay_before_end, row_between,
    rows_before_end,
};
use crate::laws::shapes::{lemma_sheet_ends, lemma_written_cell};
use crate::laws::tidy::{
    lemma_find_back, lemma_occurs_back, lemma_rfind_pieces, lemma_tag_of_pieces, lemma_tidy_join,
    lemma_tidy_split, tidy,
};
use crate::sheet::{
    cell_set, cells_set, coord_row, edited, is_letter_byte, later_cell, leading_column, lemma_opens,
    letter_bytes_end, new_row, raised, row_found, row_place, row_slot, rows_appended, rows_placed,
    table_cells, written_cell, written_row, SheetOutcome, SheetView,
};
use crate::tags::{refers_to, tag_at, tag_of};
use crate::text::{
    all_digits, decimal, digit_start, is_digit, is_letter, lemma_decimal_digits, lemma_utf8_concat,
    utf8,
};
use crate::xml::written_attributes;

verus! {

// ---- names of cells -----------------------------------------------------------------------

/// The letters in front of other bytes.
proof fn lemma_letters_end(name: Seq<u8>, n: int, i: int)
    requires
        0 <= i <= n < name.len(),
        forall|k: int| 0 <= k < n ==> is_letter_byte(#[trigger] name[k]),
        !is_letter_byte(name[n]),
    ensures
        letter_bytes_end(name, i) == n,
    decreases n - i,
{
    if i < n {
        lemma_letters_end(name, n, i + 1);
    }
}

/// The name of a cell is one, and its column and row are those that it was made of.
pub proof fn lemma_name(column: nat, row: u32)
    requires
        column < u32::MAX,
    ensures
        is_cell_name(cell_name(column, row as nat)),
        coord_row(cell_name(column, row as nat)) == Some(row),
        leading_column(utf8(cell_name(column, row as nat))) == Some((column + 1) as u32),
{
    let name = cell_name(column, row as nat);
    let letters = column_letters(column);
    let digits = decimal(row as nat);
    lemma_cell_name_parts(column, row);
    lemma_decimal_digits(row as nat);
    lemma_letters_are_letters(column);
    lemma_letter_bytes(letters);
    lemma_column_letters_value(column);
    lemma_digits(row as nat);
    lemma_utf8_concat(letters, digits);
    assert(name =~= letters + digits);
    let bytes = utf8(name);
    let n = letters.len() as int;
    assert(bytes == utf8(letters) + utf8(digits));
    assert forall|k: int| 0 <= k < n implies is_letter_byte(#[trigger] bytes[k]) by {
        assert(bytes[k] == utf8(letters)[k]);
        assert(is_letter(letters[k]));
    }
    assert(bytes[n] == utf8(digits)[0]);
    lemma_letters_end(bytes, n, 0);
    assert(bytes.take(n) =~= utf8(letters));
    assert(all_digits(name.skip(digit_start(name, 0))));
}

// ---- rows that are written ----------------------------------------------------------------

/// The element for a row is a new row.
pub proof fn lemma_written_row(number: u32, cells: Seq<u8>)
    ensures
        written_row(number, cells) == new_row(number, cells),
        new_row(number, cells) == new_head(number) + (cells + utf8("</row>"@)),
{
    let digits = decimal(number as nat);
    reveal_strlit("<");
    reveal_strlit("row");
    reveal_strlit(" ");
    reveal_strlit("r");
    reveal_strlit("=\"");
    reveal_strlit("\"");
    reveal_strlit(">");
    reveal_strlit("</");
    reveal_strlit("</row>");
    reveal_strlit("<row r=\"");
    reveal_strlit("\">");
    lemma_decimal_digits(number as nat);
    assert forall|i: int| 0 <= i < digits.len() implies {
        &&& #[trigger] digits[i] != '<'
        &&& digits[i] != '>'
        &&& digits[i] != '&'
        &&& digits[i] != '\''
        &&& digits[i] != '"'
    } by {
        assert(is_digit(digits[i]));
    }
    law_plain_is_not_escaped(digits);
    reveal_with_fuel(written_attributes, 2);
    let one = seq![("r"@, digits)];
    assert(one.drop_last() =~= Seq::empty());
    assert("<"@ + "row"@ + written_attributes(one) + ">"@ =~= "<row r=\""@ + digits + "\">"@);
    assert("</"@ + "row"@ + ">"@ =~= "</row>"@);
    assert(new_row(number, cells) =~= new_head(number) + (cells + utf8("</row>"@)));
}

/// The cells of a row that is written: they make a body, and the next cell goes behind them.
#[verifier::spinoff_prover]
#[verifier::rlimit(60)]
proof fn lemma_cells_body(column: nat, number: u32, values: Seq<Seq<char>>)
    requires
        column + values.len() < u32::MAX,
    ensures
        ({
            let cells = table_cells(column, number, values);
            &&& tidy(cells)
            &&& is_body(cells + utf8("</row>"@))
            &&& later_cell(cells, (column + values.len() + 1) as u32, 0) == Some(None::<int>)
            &&& forall|c: nat|
                column + values.len() <= c < u32::MAX ==> #[trigger] tag_of(
                    cells,
                    "<c "@,
                    cell_name(c, number as nat),
                    0,
                ) is None
        }),
    decreases values.len(),
{
    let cells = table_cells(column, number, values);
    let close = utf8("</row>"@);
    lemma_sheet_ends();
    lemma_opens();
    lemma_bare_body();
    if values.len() == 0 {
        assert(cells + close =~= close);
        lemma_find_from(cells, utf8("<c "@), 0);
    } else {
        let front = table_cells(column, number, values.drop_last());
        let c = (column + values.len() - 1) as nat;
        let name = cell_name(c, number as nat);
        let cell = written_cell(name, values.last());
        lemma_cells_body(column, number, values.drop_last());
        lemma_name(c, number);
        lemma_written_cell(name, values.last());
        lemma_tidy_join(front, cell);
        crate::laws::shapes::lemma_tag_tidy(close);
        lemma_body_insert(front, cell, close);
        lemma_later_pieces(front, cell, (column + values.len() + 1) as u32, 0);
        lemma_later_of_cell(cell, name, (column + values.len() + 1) as u32);
        crate::laws::bodies::lemma_later_order(
            front,
            (column + values.len()) as u32,
            (column + values.len() + 1) as u32,
            0,
        );
        assert forall|d: nat| column + values.len() <= d < u32::MAX implies #[trigger] tag_of(
            cells,
            "<c "@,
            cell_name(d, number as nat),
            0,
        ) is None by {
            let other = cell_name(d, number as nat);
            lemma_name(d, number);
            lemma_tag_of_pieces(front, cell, "<c "@, other, 0);
            lemma_other_element(cell, "<c "@, "</c>"@, name, other);
            assert(tag_of(front, "<c "@, cell_name(d, number as nat), 0) is None);
        }
    }
}

/// A cell behind the cells of a row that is written.
proof fn lemma_next_cell(column: nat, number: u32, values: Seq<Seq<char>>, value: Seq<char>)
    requires
        column + values.len() + 1 < u32::MAX,
    ensures
        ({
            let name = cell_name((column + values.len()) as nat, number as nat);
            let m = table_cells(column, number, values) + utf8("</row>"@);
            &&& is_body(m)
            &&& tag_of(m, "<c "@, name, 0) is None
            &&& body_with(m, name, value) == Some(
                table_cells(column, number, values.push(value)) + utf8("</row>"@),
            )
        }),
{
    let cells = table_cells(column, number, values);
    let close = utf8("</row>"@);
    let c = (column + values.len()) as nat;
    let name = cell_name(c, number as nat);
    let m = cells + close;
    lemma_sheet_ends();
    lemma_opens();
    lemma_bare_body();
    lemma_cells_body(column, number, values);
    lemma_name(c, number);
    assert(tag_of(cells, "<c "@, name, 0) is None);
    lemma_tag_of_pieces(cells, close, "<c "@, name, 0);
    lemma_later_pieces(cells, close, (c + 1) as u32, 0);
    assert(later_cell(close, (c + 1) as u32, 0) == Some(None::<int>)) by {
        crate::laws::shapes::lemma_not_in_tag(close, utf8("<c "@), 0);
    }
    let cell = written_cell(name, value);
    assert(values.push(value).drop_last() =~= values);
    assert(values.push(value).last() == value);
    assert(table_cells(column, number, values.push(value)) == cells + cell);
    assert(insert(m, cells.len() as int, cell) =~= (cells + cell) + close);
}

// ---- rows behind the others ---------------------------------------------------------------

/// Rows can be put behind those of a sheet: it is tidy, its rows stand in front of the end of its data,
/// and none has a number larger than the last row.
pub open spec fn can_grow(sheet: SheetView) -> bool {
    &&& tidy(sheet.xml)
    &&& rows_before_end(sheet.xml)
    &&& row_slot(sheet.xml, sheet.last_row, 0) is None
}

/// A row that no row is as large as is not there.
pub proof fn lemma_not_there(xml: Seq<u8>, number: u32, i: int)
    requires
        0 <= i,
        number > 0,
        row_slot(xml, (number - 1) as u32, i) is None,
    ensures
        tag_of(xml, "<row "@, decimal(number as nat), i) is None,
    decreases xml.len() + 1 - i,
{
    lemma_find_from(xml, utf8("<row "@), i);
    if let Some(p) = find_from(xml, utf8("<row "@), i) {
        if refers_to(tag_at(xml, p), decimal(number as nat)) {
            crate::laws::cells::lemma_number_of(tag_at(xml, p), number);
        }
        lemma_not_there(xml, number, p + 1);
    }
}

/// The pieces of a sheet in front of the end of its data and behind it.
#[verifier::spinoff_prover]
#[verifier::rlimit(60)]
proof fn lemma_end_pieces(sheet: SheetView, number: u32)
    requires
        can_grow(sheet),
        number > sheet.last_row,
    ensures
        ({
            let end = rfind(sheet.xml, utf8("</sheetData>"@))->0;
            let a = sheet.xml.take(end);
            let b = sheet.xml.skip(end);
            &&& 0 <= end <= sheet.xml.len()
            &&& sheet.xml == a + b
            &&& tidy(a)
            &&& tidy(b)
            &&& row_found(sheet.xml, number) is None
            &&& row_place(sheet.xml, number) == Some(end)
            &&& tag_of(a, "<row "@, decimal(number as nat), 0) is None
            &&& rfind(b, utf8("</sheetData>"@)) == Some(0int)
            &&& find_from(b, utf8("<row "@), 0) is None
            &&& row_slot(a, number, 0) is None
        }),
{
    let data = utf8("</sheetData>"@);
    let xml = sheet.xml;
    let end = rfind(xml, data)->0;
    let a = xml.take(end);
    let b = xml.skip(end);
    lemma_sheet_ends();
    lemma_rfind(xml, data);
    lemma_byte_at(xml, data, end, 0);
    assert(xml =~= a + b);
    assert(b[0] == 60);
    lemma_tidy_split(a, b);
    lemma_slot_order(xml, sheet.last_row, (number - 1) as u32, 0);
    lemma_slot_order(xml, sheet.last_row, number, 0);
    lemma_not_there(xml, number, 0);
    lemma_tag_of_pieces(a, b, "<row "@, decimal(number as nat), 0);
    lemma_occurs_back(a, b, data, 0);
    assert forall|p: int| 0 < p implies !#[trigger] occurs_at(b, data, p) by {
        lemma_occurs_back(a, b, data, p);
        assert(!occurs_at(xml, data, end + p));
    }
    lemma_rfind_is(b, data, 0);
    lemma_find_back(a, b, utf8("<row "@), 0);
    crate::laws::rows::lemma_slot_pieces(a, b, number, 0);
}

/// Setting the cells of a row behind the others, from the `j`-th on.
#[verifier::spinoff_prover]
#[verifier::rlimit(60)]
proof fn lemma_row_grows(
    sheet: SheetView,
    number: u32,
    a: Seq<u8>,
    b: Seq<u8>,
    column: usize,
    values: Seq<Seq<char>>,
    j: int,
)
    requires
        0 < j <= values.len(),
        column + values.len() < u32::MAX,
        tidy(a),
        tidy(b),
        tag_of(a, "<row "@, decimal(number as nat), 0) is None,
        sheet.last_row == number,
        sheet.xml == a + (new_head(number) + (table_cells(column as nat, number, values.take(j))
            + utf8("</row>"@))) + b,
    ensures
        cells_set(sheet, column, number, values, j) == Some(
            edited(
                sheet,
                a + (new_head(number) + (table_cells(column as nat, number, values) + utf8(
                    "</row>"@,
                ))) + b,
            ),
        ),
    decreases values.len() - j,
{
    if j == values.len() {
        assert(values.take(j) =~= values);
    } else {
        let c = (column + j) as nat;
        let name = cell_name(c, number as nat);
        let m = table_cells(column as nat, number, values.take(j)) + utf8("</row>"@);
        let t = new_head(number);
        lemma_name(c, number);
        lemma_next_cell(column as nat, number, values.take(j), values[j]);
        lemma_new_head(number);
        lemma_row_there(a, t, m, b, number);
        lemma_row_made(t, m, number);
        lemma_set_between(sheet, number, a, t, t + m, b, name, values[j]);
        assert(values.take(j).push(values[j]) =~= values.take(j + 1));
        let next = cell_set(sheet, name, values[j])->0.sheet;
        lemma_row_grows(next, number, a, b, column, values, j + 1);
    }
}

/// Setting the cells of a row behind the others appends the row.
proof fn lemma_row_set(sheet: SheetView, number: u32, column: usize, values: Seq<Seq<char>>)
    requires
        can_grow(sheet),
        number > sheet.last_row,
        values.len() > 0,
        column + values.len() < u32::MAX,
    ensures
        ({
            let end = rfind(sheet.xml, utf8("</sheetData>"@))->0;
            let row = written_row(number, table_cells(column as nat, number, values));
            let grown = SheetView { xml: insert(sheet.xml, end, row), last_row: number };
            &&& cells_set(sheet, column, number, values, 0) == Some(edited(grown, grown.xml))
            &&& can_grow(grown)
            &&& 0 <= end <= sheet.xml.len()
            &&& rfind(grown.xml, utf8("</sheetData>"@)) == Some((end + row.len()) as int)
        }),
{
    let end = rfind(sheet.xml, utf8("</sheetData>"@))->0;
    let a = sheet.xml.take(end);
    let b = sheet.xml.skip(end);
    let row = written_row(number, table_cells(column as nat, number, values));
    lemma_end_pieces(sheet, number);
    crate::laws::cells::lemma_inserted(a, b, row);
    lemma_row_started(sheet, number, a, b, column, values);
    lemma_grown(a, b, number, column, values);
}

/// Setting the cells of a row between two pieces, in front of the end of the data.
#[verifier::spinoff_prover]
#[verifier::rlimit(60)]
proof fn lemma_row_started(
    sheet: SheetView,
    number: u32,
    a: Seq<u8>,
    b: Seq<u8>,
    column: usize,
    values: Seq<Seq<char>>,
)
    requires
        number > sheet.last_row,
        values.len() > 0,
        column + values.len() < u32::MAX,
        sheet.xml == a + b,
        tidy(a),
        tidy(b),
        tag_of(a, "<row "@, decimal(number as nat), 0) is None,
        row_found(sheet.xml, number) is None,
        row_place(sheet.xml, number) == Some(a.len() as int),
    ensures
        ({
            let row = written_row(number, table_cells(column as nat, number, values));
            let grown = SheetView { xml: a + row + b, last_row: number };
            cells_set(sheet, column, number, values, 0) == Some(edited(grown, grown.xml))
        }),
{
    let name = cell_name(column as nat, number as nat);
    let cell = written_cell(name, values[0]);
    let cells = table_cells(column as nat, number, values);
    lemma_name(column as nat, number);
    lemma_written_row(number, cell);
    crate::laws::cells::lemma_inserted(a, b, new_row(number, cell));
    let first = cell_set(sheet, name, values[0])->0.sheet;
    let one = values.take(1);
    assert(one.drop_last() =~= Seq::empty());
    assert(one.last() == values[0]);
    assert(table_cells(column as nat, number, one.drop_last()) =~= Seq::empty());
    assert(table_cells(column as nat, number, one) =~= cell);
    lemma_row_grows(first, number, a, b, column, values, 1);
    lemma_written_row(number, cells);
}

/// A row in front of the end of the data leaves room for more.
#[verifier::spinoff_prover]
#[verifier::rlimit(60)]
proof fn lemma_grown(a: Seq<u8>, b: Seq<u8>, number: u32, column: usize, values: Seq<Seq<char>>)
    requires
        column + values.len() < u32::MAX,
        tidy(a),
        tidy(b),
        tag_of(a, "<row "@, decimal(number as nat), 0) is None,
        rfind(b, utf8("</sheetData>"@)) == Some(0int),
        find_from(b, utf8("<row "@), 0) is None,
        row_slot(a, number, 0) is None,
    ensures
        ({
            let row = written_row(number, table_cells(column as nat, number, values));
            &&& can_grow(SheetView { xml: a + row + b, last_row: number })
            &&& rfind(a + row + b, utf8("</sheetData>"@)) == Some((a.len() + row.len()) as int)
        }),
{
    let data = utf8("</sheetData>"@);
    let close = utf8("</row>"@);
    let cells = table_cells(column as nat, number, values);
    let row = written_row(number, cells);
    let t = new_head(number);
    let grown = a + row + b;
    lemma_sheet_ends();
    lemma_written_row(number, cells);
    lemma_cells_body(column as nat, number, values);
    lemma_new_head(number);
    lemma_row_made(t, cells + close, number);
    lemma_tidy_join(a, row);
    lemma_tidy_join(a + row, b);
    assert(grown =~= a + (row + b));
    lemma_rfind_pieces(a + row, b, data);
    lemma_find_back(a + row, b, utf8("<row "@), 0);
    crate::laws::rows::lemma_slot_pieces(a, row + b, number, 0);
    crate::laws::rows::lemma_slot_pieces(row, b, number, 0);
    lemma_slot_of_row(row, number, number);
    assert(row_slot(b, number, 0) is None);
}

// ---- tables -------------------------------------------------------------------------------

/// What setting the cells of a table one after the other, from its `k`-th row on, makes of a sheet.
pub open spec fn table_set(
    sheet: SheetView,
    column: usize,
    first: u32,
    rows: Seq<Seq<Seq<char>>>,
    k: int,
) -> Option<SheetOutcome>
    decreases rows.len() - k,
{
    if k < 0 || k >= rows.len() {
        Some(edited(sheet, sheet.xml))
    } else if first + k > u32::MAX {
        None
    } else {
        match cells_set(sheet, column, (first + k) as u32, rows[k], 0) {
            None => None,
            Some(outcome) => if outcome.result is Err {
                Some(outcome)
            } else {
                table_set(outcome.sheet, column, first, rows, k + 1)
            },
        }
    }
}

/// The rows of a table behind the last row are appended as they would be set.
#[verifier::spinoff_prover]
#[verifier::rlimit(60)]
pub proof fn lemma_rows_appended(
    sheet: SheetView,
    pending: Seq<u8>,
    grown: SheetView,
    column: usize,
    first: u32,
    rows: Seq<Seq<Seq<char>>>,
    k: int,
)
    requires
        0 <= k <= rows.len() <= u32::MAX + 1,
        first + k > sheet.last_row,
        forall|r: int|
            0 <= r < rows.len() ==> 0 < (#[trigger] rows[r]).len() && column + rows[r].len()
                < u32::MAX,
        rfind(sheet.xml, utf8("</sheetData>"@)) is Some,
        0 <= rfind(sheet.xml, utf8("</sheetData>"@))->0 <= sheet.xml.len(),
        can_grow(grown),
        grown.last_row == sheet.last_row,
        grown.xml == insert(
            sheet.xml,
            rfind(sheet.xml, utf8("</sheetData>"@))->0,
            pending,
        ),
        rfind(grown.xml, utf8("</sheetData>"@)) == Some(
            rfind(sheet.xml, utf8("</sheetData>"@))->0 + pending.len(),
        ),
    ensures
        table_set(grown, column, first, rows, k) == (match rows_placed(
            sheet,
            pending,
            column,
            first,
            rows,
            k,
        ) {
            None => None,
            Some(placing) => Some(rows_appended(placing.sheet, placing.pending)),
        }),
        rows_placed(sheet, pending, column, first, rows, k) matches Some(placing) ==> placing.result is Ok,
    decreases rows.len() - k,
{
    if k < rows.len() && first + k <= u32::MAX {
        let number = (first + k) as u32;
        let row = written_row(number, table_cells(column as nat, number, rows[k]));
        let end = rfind(sheet.xml, utf8("</sheetData>"@))->0;
        assert(0 < rows[k].len() && column + rows[k].len() < u32::MAX);
        lemma_row_set(grown, number, column, rows[k]);
        let next = SheetView { last_row: number, ..sheet };
        let longer = SheetView {
            xml: insert(grown.xml, end + pending.len(), row),
            last_row: number,
        };
        assert(longer.xml =~= insert(sheet.xml, end, pending + row));
        assert(((k as usize) as u32) == k);
        lemma_rows_appended(next, pending + row, longer, column, first, rows, k + 1);
    }
}

/// A row put in the place of a row, or where one goes, leaves a sheet one that can grow.
proof fn lemma_grows_around(
    a: Seq<u8>,
    r: Seq<u8>,
    b: Seq<u8>,
    new: Seq<u8>,
    number: u32,
    last: u32,
)
    requires
        row_between(a, r, b, number),
        is_row(new, number),
        number <= last,
        can_grow(SheetView { xml: a + r + b, last_row: last }),
    ensures
        can_grow(SheetView { xml: a + new + b, last_row: last }),
{
    lemma_sheet_ends();
    if r.len() == 0 {
        assert(a + r =~= a);
    }
    lemma_tidy_join(a, new);
    lemma_tidy_join(a + new, b);
    lemma_tidy_join(a, r);
    lemma_stay_before_end(a, r, b, new, number);
    crate::laws::rows::lemma_slot_pieces(a + r, b, last, 0);
    crate::laws::rows::lemma_slot_pieces(a, r, last, 0);
    crate::laws::rows::lemma_slot_pieces(a + new, b, last, 0);
    crate::laws::rows::lemma_slot_pieces(a, new, last, 0);
    lemma_slot_of_row(new, number, last);
}

/// Setting a cell leaves a sheet one that can grow.
pub proof fn lemma_still_grows(sheet: SheetView, coord: Seq<char>, value: Seq<char>)
    requires
        can_hold(sheet, coord),
        can_grow(sheet),
    ensures
        cell_set(sheet, coord, value) matches Some(outcome) ==> {
            &&& outcome.result is Ok
            &&& outcome.sheet.last_row == raised(sheet, coord_row(coord)->0).last_row
            &&& can_grow(outcome.sheet)
        },
{
    let number = coord_row(coord)->0;
    let (a, t, r, b) = lemma_around_row(sheet.xml, number);
    let m = body_of(sheet.xml, number);
    lemma_set_between(sheet, number, a, t, r, b, coord, value);
    if let Some(set) = body_with(m, coord, value) {
        let last = raised(sheet, number).last_row;
        lemma_cell_set(m, coord, value);
        lemma_row_made(t, set, number);
        lemma_is_between(sheet.xml, number, a, r, b);
        lemma_slot_order(sheet.xml, sheet.last_row, last, 0);
        lemma_grows_around(a, r, b, t + set, number, last);
    }
}

} // verus!
