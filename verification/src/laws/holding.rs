//! Cells that can be set.

use vstd::prelude::*;
use crate::bytes::{find_from, insert, lemma_find_from, rfind};
use crate::coord::is_cell_name;
use crate::laws::bodies::{
    body_holds, body_slot, body_with, body_without, cell_text, is_body, lemma_cell_pieces,
    lemma_cell_set, lemma_later_of_cell, lemma_later_pieces, lemma_slot_pieces,
};
use crate::laws::cells::{
    body_of, can_hold, law_set_cell_holds, lemma_around_row, lemma_row_there, lemma_set_between,
};
use crate::laws::rows::{law_other_cells_kept, law_other_rows_kept};
use crate::laws::shapes::lemma_written_cell;
use crate::laws::tidy::{is_element, tidy};
use crate::sheet::{cell_set, coord_row, later_cell, leading_column, written_cell, SheetView};
use crate::tags::{element_stop, tag_of};
use crate::text::utf8;

verus! {

/// Every cell of a body that refers to a column refers to one that can be held.
pub open spec fn has_columns(m: Seq<u8>) -> bool {
    later_cell(m, u32::MAX, 0) == Some(None::<int>)
}

/// Where every column can be held, there is a place for every cell.
proof fn lemma_columns_held(x: Seq<u8>, column: u32, i: int)
    requires
        0 <= i,
        later_cell(x, u32::MAX, i) == Some(None::<int>),
    ensures
        later_cell(x, column, i) is Some,
    decreases x.len() + 1 - i,
{
    lemma_find_from(x, utf8("<c "@), i);
    if let Some(p) = find_from(x, utf8("<c "@), i) {
        lemma_columns_held(x, column, p + 1);
    }
}

/// A body with one more cell, or without one, has columns that can be held.
proof fn lemma_columns_between(p: Seq<u8>, k: Seq<u8>, q: Seq<u8>, coord: Seq<char>)
    requires
        tidy(p),
        is_element(k, "<c "@, "</c>"@, coord),
        leading_column(utf8(coord)) is Some,
    ensures
        has_columns(p + k + q) <==> has_columns(p + q),
{
    lemma_later_of_cell(k, coord, u32::MAX);
    lemma_later_pieces(p, k + q, u32::MAX, 0);
    lemma_later_pieces(k, q, u32::MAX, 0);
    lemma_later_pieces(p, q, u32::MAX, 0);
    assert(p + k + q =~= p + (k + q));
}

/// A cell can be set in a body whose columns can be held, and they can be held still.
#[verifier::spinoff_prover]
#[verifier::rlimit(60)]
proof fn lemma_body_set(m: Seq<u8>, coord: Seq<char>, value: Seq<char>)
    requires
        is_cell_name(coord),
        leading_column(utf8(coord)) is Some,
        is_body(m),
        body_holds(m, coord),
        has_columns(m),
    ensures
        body_with(m, coord, value) is Some,
        has_columns(body_with(m, coord, value)->0),
{
    let rest = body_without(m, coord);
    let column = leading_column(utf8(coord))->0;
    let cell = written_cell(coord, value);
    lemma_cell_pieces(m, coord);
    if let Some(s) = tag_of(m, "<c "@, coord, 0) {
        let e = element_stop(m, s, "</c>"@)->0;
        let p = m.take(s);
        let k = m.subrange(s, e);
        let q = m.skip(e);
        assert(m =~= p + k + q);
        lemma_columns_between(p, k, q, coord);
    }
    lemma_columns_held(rest, column, 0);
    let at = body_slot(rest, column)->0;
    lemma_slot_pieces(rest, column);
    lemma_written_cell(coord, value);
    let a = rest.take(at);
    let b = rest.skip(at);
    assert(rest =~= a + b);
    lemma_columns_between(a, cell, b, coord);
    assert(insert(rest, at, cell) =~= a + cell + b);
}

/// The cell `coord` can be set in a sheet: the sheet can hold it, and the columns of its row can be
/// held.
pub open spec fn can_set(sheet: SheetView, coord: Seq<char>) -> bool {
    &&& can_hold(sheet, coord)
    &&& has_columns(body_of(sheet.xml, coord_row(coord)->0))
}

/// Setting a cell succeeds where it can be set and the sheet has an end of its data; the cell is then
/// as it was written, and can be set again.
pub proof fn law_set_cell_succeeds(sheet: SheetView, coord: Seq<char>, value: Seq<char>)
    requires
        can_set(sheet, coord),
        rfind(sheet.xml, utf8("</sheetData>"@)) is Some,
    ensures
        cell_set(sheet, coord, value) matches Some(outcome) && {
            &&& outcome.result is Ok
            &&& cell_text(body_of(outcome.sheet.xml, coord_row(coord)->0), coord) == Some(
                written_cell(coord, value),
            )
            &&& can_set(outcome.sheet, coord)
        },
{
    let number = coord_row(coord)->0;
    let (a, t, r, b) = lemma_around_row(sheet.xml, number);
    let m = body_of(sheet.xml, number);
    lemma_body_set(m, coord, value);
    lemma_set_between(sheet, number, a, t, r, b, coord, value);
    lemma_cell_set(m, coord, value);
    lemma_row_there(a, t, body_with(m, coord, value)->0, b, number);
    law_set_cell_holds(sheet, coord, value);
}

/// Setting a cell leaves every other cell one that can be set.
pub proof fn law_others_can_be_set(
    sheet: SheetView,
    coord: Seq<char>,
    value: Seq<char>,
    other: Seq<char>,
)
    requires
        can_set(sheet, coord),
        can_set(sheet, other),
        coord != other,
    ensures
        cell_set(sheet, coord, value) matches Some(outcome) ==> (outcome.result is Ok ==> {
            let number = coord_row(other)->0;
            &&& cell_text(body_of(outcome.sheet.xml, number), other) == cell_text(
                body_of(sheet.xml, number),
                other,
            )
            &&& can_set(outcome.sheet, other)
        }),
{
    let number = coord_row(coord)->0;
    if let Some(outcome) = cell_set(sheet, coord, value) {
        if outcome.result is Ok {
            law_other_cells_kept(sheet, coord, value, other);
            if coord_row(other) == coord_row(coord) {
                let (a, t, r, b) = lemma_around_row(sheet.xml, number);
                let m = body_of(sheet.xml, number);
                lemma_body_set(m, coord, value);
                lemma_set_between(sheet, number, a, t, r, b, coord, value);
                lemma_cell_set(m, coord, value);
                lemma_row_there(a, t, body_with(m, coord, value)->0, b, number);
            } else {
                law_other_rows_kept(sheet, coord, value, coord_row(other)->0);
            }
        }
    }
}

} // verus!
