//! Tables that are appended and tables that are placed.

use vstd::prelude::*;
use crate::bytes::{insert, lemma_rfind, lemma_rfind_is, occurs_at, rfind};
use crate::coord::{cell_name, column_index, is_cell_name};
use crate::laws::bodies::cell_text;
use crate::laws::cells::{body_of, lemma_bare_body};
use crate::laws::columns::{law_column_round_trip, lemma_cell_name_parts};
use crate::laws::holding::{can_set, law_others_can_be_set, law_set_cell_succeeds};
use crate::laws::pieces::lemma_occurs_behind;
use crate::laws::placing::{
    can_grow, lemma_name, lemma_not_there, lemma_rows_appended, lemma_still_grows, table_set,
};
use crate::laws::rows::lemma_slot_order;
use crate::laws::shapes::lemma_sheet_ends;
use crate::sheet::{
    cell_set, cells_set, coord_row, leading_column, lemma_opens, raised, row_appended,
    rows_appended, rows_placed, table_appended, table_cells, table_placed, table_rows, written_cell,
    written_row, Placing, SheetView,
};
use crate::text::{digit_start, u32_of, utf8};

verus! {

/// What was put in front of the end of the data leaves the end behind itself.
proof fn lemma_end_moves(xml: Seq<u8>, at: int, rows: Seq<u8>)
    requires
        rfind(xml, utf8("</sheetData>"@)) == Some(at),
    ensures
        rfind(insert(xml, at, rows), utf8("</sheetData>"@)) == Some(at + rows.len()),
{
    let close = utf8("</sheetData>"@);
    let whole = insert(xml, at, rows);
    lemma_rfind(xml, close);
    lemma_occurs_behind(xml, at, at, rows, close, at + rows.len() as int);
    assert forall|p: int| at + rows.len() < p implies !#[trigger] occurs_at(whole, close, p) by {
        lemma_occurs_behind(xml, at, at, rows, close, p);
        assert(!occurs_at(xml, close, p - rows.len()));
    }
    lemma_rfind_is(whole, close, at + rows.len());
}

/// Appending a table with one more row is appending the table and then the row.
pub proof fn law_append_table_row_by_row(
    sheet: SheetView,
    rows: Seq<Seq<Seq<char>>>,
    row: Seq<Seq<char>>,
)
    ensures
        table_appended(sheet, rows) matches Some(outcome) ==> (outcome.result is Ok
            ==> table_appended(sheet, rows.push(row)) == row_appended(outcome.sheet, row)),
{
    if let Some(outcome) = table_appended(sheet, rows) {
        if outcome.result is Ok && sheet.last_row + rows.len() < u32::MAX {
            let at = rfind(sheet.xml, utf8("</sheetData>"@))->0;
            let front = table_rows(sheet.last_row, rows);
            lemma_rfind(sheet.xml, utf8("</sheetData>"@));
            lemma_end_moves(sheet.xml, at, front);
            let number = (sheet.last_row + rows.len() + 1) as u32;
            let last = written_row(number, table_cells(0, number, row));
            assert(rows.push(row).drop_last() =~= rows);
            assert(rows.push(row).last() == row);
            assert(table_rows(sheet.last_row, rows.push(row)) == front + last);
            assert(insert(insert(sheet.xml, at, front), at + front.len(), last) =~= insert(
                sheet.xml,
                at,
                front + last,
            ));
        }
    }
}

/// Placing the rows of a table behind all others keeps them to be appended.
proof fn lemma_rows_placed(
    start: SheetView,
    sheet: SheetView,
    pending: Seq<u8>,
    rows: Seq<Seq<Seq<char>>>,
    k: int,
)
    requires
        0 <= k <= rows.len() <= usize::MAX,
        forall|r: int| 0 <= r < rows.len() ==> (#[trigger] rows[r]).len() <= usize::MAX,
        start.last_row < u32::MAX,
        start.last_row + k <= u32::MAX,
        sheet == (SheetView { last_row: (start.last_row + k) as u32, ..start }),
        pending == table_rows(start.last_row, rows.take(k)),
    ensures
        rows_placed(sheet, pending, 0, (start.last_row + 1) as u32, rows, k) == (if start.last_row
            + rows.len() > u32::MAX {
            None
        } else {
            Some(
                Placing {
                    sheet: SheetView { last_row: (start.last_row + rows.len()) as u32, ..start },
                    pending: table_rows(start.last_row, rows),
                    result: Ok(()),
                },
            )
        }),
    decreases rows.len() - k,
{
    if k == rows.len() {
        assert(rows.take(k) =~= rows);
    } else if start.last_row + k < u32::MAX {
        let number = (start.last_row + k + 1) as u32;
        let next = rows.take(k + 1);
        assert(next.drop_last() =~= rows.take(k));
        assert(next.last() == rows[k]);
        let longer = SheetView { last_row: number, ..sheet };
        lemma_rows_placed(
            start,
            longer,
            pending + written_row(number, table_cells(0, number, rows[k])),
            rows,
            k + 1,
        );
    }
}

/// Writing a table at the first cell of the row behind the last one is appending it.
pub proof fn law_append_table_at_end(sheet: SheetView, rows: Seq<Seq<Seq<char>>>)
    requires
        sheet.last_row < u32::MAX,
        rows.len() <= usize::MAX,
        forall|r: int| 0 <= r < rows.len() ==> (#[trigger] rows[r]).len() <= usize::MAX,
    ensures
        table_placed(sheet, cell_name(0, (sheet.last_row + 1) as nat), rows) == table_appended(
            sheet,
            rows,
        ),
{
    let first = (sheet.last_row + 1) as u32;
    lemma_cell_name_parts(0, first);
    law_column_round_trip(0);
    assert(rows.take(0) =~= Seq::empty());
    assert(table_rows(sheet.last_row, rows.take(0)) =~= Seq::empty());
    lemma_rows_placed(sheet, sheet, Seq::empty(), rows, 0);
}

// ---- the cells of a table -----------------------------------------------------------------

/// The name of the `i`-th cell of the `k`-th row of a table.
pub open spec fn table_name(column: usize, first: u32, k: int, i: int) -> Seq<char> {
    cell_name((column + i) as nat, (first + k) as nat)
}

/// The names of the cells of a table are names, with their columns and rows.
proof fn lemma_table_name(column: usize, first: u32, k: int, i: int)
    requires
        0 <= i,
        0 <= k,
        column + i < u32::MAX,
        first + k <= u32::MAX,
    ensures
        ({
            let name = table_name(column, first, k, i);
            &&& is_cell_name(name)
            &&& coord_row(name) == Some((first + k) as u32)
            &&& leading_column(utf8(name)) == Some((column + i + 1) as u32)
        }),
{
    lemma_name((column + i) as nat, (first + k) as u32);
}

/// The table fits: no row of it is empty, and its columns and rows can be numbered.
pub open spec fn fits(column: usize, first: u32, rows: Seq<Seq<Seq<char>>>) -> bool {
    &&& first + rows.len() <= u32::MAX + 1
    &&& forall|r: int|
        0 <= r < rows.len() ==> 0 < (#[trigger] rows[r]).len() && column + rows[r].len() < u32::MAX
}

/// The cells of a table can be set in a sheet, as far as its rows are not behind the last one of the
/// sheet.
pub open spec fn can_take(
    sheet: SheetView,
    column: usize,
    first: u32,
    rows: Seq<Seq<Seq<char>>>,
) -> bool {
    forall|k: int, i: int|
        0 <= k < rows.len() && first + k <= sheet.last_row && 0 <= i < rows[k].len() ==> can_set(
            sheet,
            #[trigger] table_name(column, first, k, i),
        )
}

/// The cells of a table can be set in a sheet.
spec fn takes(sheet: SheetView, column: usize, first: u32, rows: Seq<Seq<Seq<char>>>) -> bool {
    forall|k: int, i: int|
        0 <= k < rows.len() && 0 <= i < rows[k].len() ==> can_set(
            sheet,
            #[trigger] table_name(column, first, k, i),
        )
}

/// A cell of a row behind the last one can be set.
proof fn lemma_can_set_behind(sheet: SheetView, coord: Seq<char>)
    requires
        can_grow(sheet),
        is_cell_name(coord),
        leading_column(utf8(coord)) is Some,
        coord_row(coord) matches Some(number) && number > sheet.last_row,
    ensures
        can_set(sheet, coord),
{
    let number = coord_row(coord)->0;
    lemma_slot_order(sheet.xml, sheet.last_row, (number - 1) as u32, 0);
    lemma_not_there(sheet.xml, number, 0);
    lemma_bare_body();
    lemma_sheet_ends();
    lemma_opens();
    crate::laws::shapes::lemma_not_in_tag(utf8("</row>"@), utf8("<c "@), 0);
}

/// A sheet that can grow and take a table in the rows that it has can take it whole.
proof fn lemma_takes(sheet: SheetView, column: usize, first: u32, rows: Seq<Seq<Seq<char>>>)
    requires
        can_grow(sheet),
        can_take(sheet, column, first, rows),
        fits(column, first, rows),
    ensures
        takes(sheet, column, first, rows),
{
    assert forall|k: int, i: int| 0 <= k < rows.len() && 0 <= i < rows[k].len() implies can_set(
        sheet,
        #[trigger] table_name(column, first, k, i),
    ) by {
        lemma_table_name(column, first, k, i);
        if first + k > sheet.last_row {
            lemma_can_set_behind(sheet, table_name(column, first, k, i));
        }
    }
}

/// Setting a cell of a table: it holds what was written, and a sheet that can take the table and grow
/// still can.
proof fn lemma_table_cell_set(
    sheet: SheetView,
    column: usize,
    first: u32,
    rows: Seq<Seq<Seq<char>>>,
    k: int,
    j: int,
)
    requires
        0 <= k < rows.len(),
        0 <= j < rows[k].len(),
        fits(column, first, rows),
        can_grow(sheet),
        takes(sheet, column, first, rows),
    ensures
        ({
            let name = table_name(column, first, k, j);
            &&& coord_row(name) == Some((first + k) as u32)
            &&& cell_set(sheet, name, rows[k][j]) matches Some(outcome) && {
                &&& outcome.result is Ok
                &&& outcome.sheet.last_row == raised(sheet, (first + k) as u32).last_row
                &&& can_grow(outcome.sheet)
                &&& takes(outcome.sheet, column, first, rows)
                &&& can_set(outcome.sheet, name)
                &&& cell_text(body_of(outcome.sheet.xml, (first + k) as u32), name) == Some(
                    written_cell(name, rows[k][j]),
                )
            }
        }),
{
    let name = table_name(column, first, k, j);
    let value = rows[k][j];
    assert(can_set(sheet, name));
    lemma_table_name(column, first, k, j);
    lemma_still_grows(sheet, name, value);
    law_set_cell_succeeds(sheet, name, value);
    let after = cell_set(sheet, name, value)->0.sheet;
    assert forall|r: int, i: int| 0 <= r < rows.len() && 0 <= i < rows[r].len() implies can_set(
        after,
        #[trigger] table_name(column, first, r, i),
    ) by {
        let other = table_name(column, first, r, i);
        if other != name {
            law_others_can_be_set(sheet, name, value, other);
        }
    }
}

/// Setting the cells of a row of a table, from the `j`-th on: each holds what was written, and every
/// other cell what it held.
proof fn lemma_table_row_set(
    sheet: SheetView,
    column: usize,
    first: u32,
    rows: Seq<Seq<Seq<char>>>,
    k: int,
    j: int,
    coord: Seq<char>,
    i: int,
)
    requires
        0 <= k < rows.len(),
        0 <= j <= rows[k].len(),
        fits(column, first, rows),
        can_grow(sheet),
        takes(sheet, column, first, rows),
        can_set(sheet, coord),
    ensures
        cells_set(sheet, column, (first + k) as u32, rows[k], j) matches Some(outcome) && {
            let number = coord_row(coord)->0;
            &&& outcome.result is Ok
            &&& first + k <= sheet.last_row ==> outcome.sheet.last_row == sheet.last_row
            &&& can_grow(outcome.sheet)
            &&& takes(outcome.sheet, column, first, rows)
            &&& can_set(outcome.sheet, coord)
            &&& (forall|c: int|
                j <= c < rows[k].len() ==> #[trigger] table_name(column, first, k, c) != coord)
                ==> cell_text(body_of(outcome.sheet.xml, number), coord) == cell_text(
                body_of(sheet.xml, number),
                coord,
            )
            &&& j <= i < rows[k].len() && coord == table_name(column, first, k, i) ==> cell_text(
                body_of(outcome.sheet.xml, number),
                coord,
            ) == Some(written_cell(coord, rows[k][i]))
        },
    decreases rows[k].len() - j,
{
    if j < rows[k].len() {
        let name = table_name(column, first, k, j);
        lemma_table_cell_set(sheet, column, first, rows, k, j);
        let next = cell_set(sheet, name, rows[k][j])->0.sheet;
        if coord != name {
            law_others_can_be_set(sheet, name, rows[k][j], coord);
        }
        lemma_table_row_set(next, column, first, rows, k, j + 1, coord, i);
        if coord == name {
            lemma_table_name(column, first, k, j);
            assert forall|c: int| j + 1 <= c < rows[k].len() implies #[trigger] table_name(
                column,
                first,
                k,
                c,
            ) != coord by {
                lemma_table_name(column, first, k, c);
            }
            if 0 <= i < rows[k].len() {
                lemma_table_name(column, first, k, i);
            }
        }
    }
}

/// Setting the cells of a table, from its `k`-th row on: each holds what was written, and every other
/// cell what it held.
proof fn lemma_table_set(
    sheet: SheetView,
    column: usize,
    first: u32,
    rows: Seq<Seq<Seq<char>>>,
    k: int,
    coord: Seq<char>,
    r: int,
    i: int,
)
    requires
        0 <= k <= rows.len(),
        fits(column, first, rows),
        can_grow(sheet),
        takes(sheet, column, first, rows),
        can_set(sheet, coord),
    ensures
        table_set(sheet, column, first, rows, k) matches Some(outcome) && {
            let number = coord_row(coord)->0;
            &&& outcome.result is Ok
            &&& can_set(outcome.sheet, coord)
            &&& (forall|b: int, c: int|
                k <= b < rows.len() && 0 <= c < rows[b].len() ==> #[trigger] table_name(
                    column,
                    first,
                    b,
                    c,
                ) != coord) ==> cell_text(body_of(outcome.sheet.xml, number), coord) == cell_text(
                body_of(sheet.xml, number),
                coord,
            )
            &&& k <= r < rows.len() && 0 <= i < rows[r].len() && coord == table_name(
                column,
                first,
                r,
                i,
            ) ==> cell_text(body_of(outcome.sheet.xml, number), coord) == Some(
                written_cell(coord, rows[r][i]),
            )
        },
    decreases rows.len() - k,
{
    if k < rows.len() {
        lemma_table_row_set(sheet, column, first, rows, k, 0, coord, i);
        let next = cells_set(sheet, column, (first + k) as u32, rows[k], 0)->0.sheet;
        lemma_table_set(next, column, first, rows, k + 1, coord, r, i);
        if k <= r < rows.len() && 0 <= i < rows[r].len() && coord == table_name(column, first, r, i) {
            lemma_table_name(column, first, r, i);
            if r == k {
                assert forall|b: int, c: int|
                    k + 1 <= b < rows.len() && 0 <= c < rows[b].len() implies #[trigger] table_name(
                    column,
                    first,
                    b,
                    c,
                ) != coord by {
                    lemma_table_name(column, first, b, c);
                }
            }
        }
    }
}

/// Setting a row of a table that is not behind the last one leaves a sheet that can take the table and
/// grow one that still can.
proof fn lemma_row_there_set(
    sheet: SheetView,
    column: usize,
    first: u32,
    rows: Seq<Seq<Seq<char>>>,
    k: int,
)
    requires
        0 <= k < rows.len(),
        first + k <= sheet.last_row,
        fits(column, first, rows),
        can_grow(sheet),
        takes(sheet, column, first, rows),
    ensures
        cells_set(sheet, column, (first + k) as u32, rows[k], 0) matches Some(outcome) && {
            &&& outcome.result is Ok
            &&& outcome.sheet.last_row == sheet.last_row
            &&& can_grow(outcome.sheet)
            &&& takes(outcome.sheet, column, first, rows)
        },
{
    assert(rows[k].len() > 0);
    let name = table_name(column, first, k, 0);
    assert(can_set(sheet, name));
    lemma_table_row_set(sheet, column, first, rows, k, 0, name, 0);
}

/// Placing the rows of a table, from the `k`-th on, is setting them one after the other.
#[verifier::spinoff_prover]
#[verifier::rlimit(60)]
proof fn lemma_rows_set(
    sheet: SheetView,
    column: usize,
    first: u32,
    rows: Seq<Seq<Seq<char>>>,
    k: int,
)
    requires
        0 <= k <= rows.len(),
        fits(column, first, rows),
        can_grow(sheet),
        takes(sheet, column, first, rows),
    ensures
        table_set(sheet, column, first, rows, k) == (match rows_placed(
            sheet,
            Seq::empty(),
            column,
            first,
            rows,
            k,
        ) {
            None => None,
            Some(placing) => Some(rows_appended(placing.sheet, placing.pending)),
        }),
        rows_placed(sheet, Seq::empty(), column, first, rows, k) matches Some(placing)
            ==> placing.result is Ok,
    decreases rows.len() - k,
{
    let none = Seq::<u8>::empty();
    let end = rfind(sheet.xml, utf8("</sheetData>"@))->0;
    lemma_rfind(sheet.xml, utf8("</sheetData>"@));
    assert(insert(sheet.xml, end, none) =~= sheet.xml);
    if k < rows.len() {
        assert(((k as usize) as u32) == k);
        if first + k > sheet.last_row {
            lemma_rows_appended(sheet, none, sheet, column, first, rows, k);
        } else {
            lemma_row_there_set(sheet, column, first, rows, k);
            let next = cells_set(sheet, column, (first + k) as u32, rows[k], 0)->0.sheet;
            lemma_rows_set(next, column, first, rows, k + 1);
        }
    }
}

/// Placing a table succeeds and is setting its cells one after the other, where the table fits, on a
/// sheet that can grow and in which the cells of the table can be set in the rows that it has.
pub proof fn law_table_cell_by_cell(
    sheet: SheetView,
    coord: Seq<char>,
    rows: Seq<Seq<Seq<char>>>,
    column: usize,
    first: u32,
)
    requires
        digit_start(coord, 0) < coord.len(),
        column_index(coord.take(digit_start(coord, 0))) == Some(column),
        u32_of(coord.skip(digit_start(coord, 0))) == Some(first),
        fits(column, first, rows),
        can_grow(sheet),
        can_take(sheet, column, first, rows),
    ensures
        table_placed(sheet, coord, rows) == table_set(sheet, column, first, rows, 0),
        table_placed(sheet, coord, rows) matches Some(outcome) && outcome.result is Ok,
{
    lemma_takes(sheet, column, first, rows);
    lemma_rows_set(sheet, column, first, rows, 0);
    if rows.len() > 0 {
        lemma_table_set(sheet, column, first, rows, 0, table_name(column, first, 0, 0), 0, 0);
    }
}

/// A table that was placed stands in the sheet cell by cell as it was written.
pub proof fn law_table_holds(
    sheet: SheetView,
    coord: Seq<char>,
    rows: Seq<Seq<Seq<char>>>,
    column: usize,
    first: u32,
    k: int,
    i: int,
)
    requires
        digit_start(coord, 0) < coord.len(),
        column_index(coord.take(digit_start(coord, 0))) == Some(column),
        u32_of(coord.skip(digit_start(coord, 0))) == Some(first),
        fits(column, first, rows),
        can_grow(sheet),
        can_take(sheet, column, first, rows),
        0 <= k < rows.len(),
        0 <= i < rows[k].len(),
    ensures
        table_placed(sheet, coord, rows) matches Some(outcome) && outcome.result is Ok && cell_text(
            body_of(outcome.sheet.xml, (first + k) as u32),
            table_name(column, first, k, i),
        ) == Some(written_cell(table_name(column, first, k, i), rows[k][i])),
{
    law_table_cell_by_cell(sheet, coord, rows, column, first);
    lemma_takes(sheet, column, first, rows);
    lemma_table_name(column, first, k, i);
    lemma_table_set(sheet, column, first, rows, 0, table_name(column, first, k, i), k, i);
}

/// Placing a table leaves every cell that is not in the table as it was.
pub proof fn law_table_keeps_other_cells(
    sheet: SheetView,
    coord: Seq<char>,
    rows: Seq<Seq<Seq<char>>>,
    column: usize,
    first: u32,
    other: Seq<char>,
)
    requires
        digit_start(coord, 0) < coord.len(),
        column_index(coord.take(digit_start(coord, 0))) == Some(column),
        u32_of(coord.skip(digit_start(coord, 0))) == Some(first),
        fits(column, first, rows),
        can_grow(sheet),
        can_take(sheet, column, first, rows),
        can_set(sheet, other),
        forall|k: int, i: int|
            0 <= k < rows.len() && 0 <= i < rows[k].len() ==> #[trigger] table_name(
                column,
                first,
                k,
                i,
            ) != other,
    ensures
        table_placed(sheet, coord, rows) matches Some(outcome) && outcome.result is Ok && cell_text(
            body_of(outcome.sheet.xml, coord_row(other)->0),
            other,
        ) == cell_text(body_of(sheet.xml, coord_row(other)->0), other),
{
    law_table_cell_by_cell(sheet, coord, rows, column, first);
    lemma_takes(sheet, column, first, rows);
    lemma_table_set(sheet, column, first, rows, 0, other, 0, 0);
}

} // verus!
