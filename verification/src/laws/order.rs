//! The order of the cells of a row.

use vstd::prelude::*;
use crate::bytes::{find_from, insert, lemma_find_from};
use crate::coord::is_cell_name;
use crate::laws::bodies::{
    body_holds, body_slot, body_with, body_without, is_body, lemma_cell_pieces, lemma_cell_set,
    lemma_column_of, lemma_later_cell, lemma_slot_pieces,
};
use crate::laws::cells::{
    body_of, can_hold, keeps_row, lemma_around_row, lemma_row_there, lemma_set_between,
};
use crate::laws::pieces::lemma_byte_at;
use crate::laws::rows::{
    has_one_more, is_increasing, law_other_rows_kept, lemma_number_between, lemma_one_less,
    lemma_one_more,
};
use crate::laws::shapes::{lemma_sheet_ends, lemma_written_cell};
use crate::laws::tidy::{
    is_element, lemma_find_back, lemma_find_pieces, lemma_occurs_back, lemma_tag_behind,
    lemma_tag_in_front, tidy,
};
use crate::sheet::{
    cell_set, coord_row, later_cell, leading_column, lemma_opens, tag_column, written_cell,
    SheetView,
};
use crate::tags::{element_stop, tag_at, tag_of};
use crate::text::utf8;

verus! {

/// The column of a tag, where it has one that can be held.
pub open spec fn held_column(tag: Seq<u8>) -> Option<u32> {
    match tag_column(tag) {
        Some(column) => column,
        None => None,
    }
}

/// The columns of the cells of a body from `i` on, in their order.
pub open spec fn cell_columns(m: Seq<u8>, i: int) -> Seq<Option<u32>>
    decreases m.len() + 1 - i,
{
    if i < 0 {
        Seq::empty()
    } else {
        match find_from(m, utf8("<c "@), i) {
            None => Seq::empty(),
            Some(at) => {
                proof {
                    lemma_find_from(m, utf8("<c "@), i);
                }
                seq![held_column(tag_at(m, at))] + cell_columns(m, at + 1)
            },
        }
    }
}

/// The columns of the cells from a place in the second of two pieces on.
proof fn lemma_columns_back(a: Seq<u8>, b: Seq<u8>, i: int)
    requires
        0 <= i,
    ensures
        cell_columns(a + b, a.len() + i) == cell_columns(b, i),
    decreases b.len() + 1 - i,
{
    let open = utf8("<c "@);
    lemma_find_back(a, b, open, i);
    lemma_find_from(b, open, i);
    if let Some(p) = find_from(b, open, i) {
        lemma_tag_behind(a, b, p);
        lemma_columns_back(a, b, p + 1);
    }
}

/// The columns of the cells of two pieces.
proof fn lemma_columns_pieces(a: Seq<u8>, b: Seq<u8>, i: int)
    requires
        tidy(a),
        0 <= i <= a.len(),
    ensures
        cell_columns(a + b, i) == cell_columns(a, i) + cell_columns(b, 0),
    decreases a.len() - i,
{
    let open = utf8("<c "@);
    lemma_sheet_ends();
    lemma_find_pieces(a, b, open, i);
    lemma_find_from(a, open, i);
    match find_from(a, open, i) {
        Some(p) => {
            lemma_byte_at(a, open, p, 0);
            lemma_tag_in_front(a, b, p);
            lemma_columns_pieces(a, b, p + 1);
            let first = seq![held_column(tag_at(a, p))];
            assert(first + (cell_columns(a, p + 1) + cell_columns(b, 0)) =~= (first + cell_columns(
                a,
                p + 1,
            )) + cell_columns(b, 0));
        },
        None => {
            lemma_columns_back(a, b, 0);
            lemma_find_back(a, b, open, 0);
            assert(cell_columns(a, i) + cell_columns(b, 0) =~= cell_columns(b, 0));
        },
    }
}

/// A cell has one column.
proof fn lemma_columns_of_cell(k: Seq<u8>, coord: Seq<char>)
    requires
        is_element(k, "<c "@, "</c>"@, coord),
        leading_column(utf8(coord)) is Some,
    ensures
        cell_columns(k, 0) == seq![Some(leading_column(utf8(coord))->0)],
{
    lemma_column_of(tag_at(k, 0), coord);
    lemma_find_from(k, utf8("<c "@), 0);
    assert(find_from(k, utf8("<c "@), 0) == Some(0int));
    assert(cell_columns(k, 1) =~= Seq::empty());
    assert(cell_columns(k, 0) =~= seq![Some(leading_column(utf8(coord))->0)]);
}

/// Where no cell is later than a column, none is.
proof fn lemma_columns_below(x: Seq<u8>, column: u32, i: int)
    requires
        0 <= i,
        later_cell(x, column, i) == Some(None::<int>),
    ensures
        forall|k: int|
            0 <= k < cell_columns(x, i).len() ==> (#[trigger] cell_columns(x, i)[k] matches Some(c)
                ==> c <= column),
    decreases x.len() + 1 - i,
{
    lemma_find_from(x, utf8("<c "@), i);
    if let Some(p) = find_from(x, utf8("<c "@), i) {
        lemma_columns_below(x, column, p + 1);
        let rest = cell_columns(x, p + 1);
        assert forall|k: int| 0 <= k < cell_columns(x, i).len() implies (#[trigger] cell_columns(
            x,
            i,
        )[k] matches Some(c) ==> c <= column) by {
            if k > 0 {
                assert(cell_columns(x, i)[k] == rest[k - 1]);
            }
        }
    }
}

/// Where a cell goes, the cells in front are not later, and those behind are.
proof fn lemma_columns_at_slot(m: Seq<u8>, column: u32)
    requires
        is_body(m),
        body_slot(m, column) is Some,
    ensures
        ({
            let at = body_slot(m, column)->0;
            let a = cell_columns(m.take(at), 0);
            let b = cell_columns(m.skip(at), 0);
            &&& cell_columns(m, 0) == a + b
            &&& forall|k: int| 0 <= k < a.len() ==> (#[trigger] a[k] matches Some(c) ==> c <= column)
            &&& b.len() > 0 ==> (b[0] matches Some(c) && c > column)
        }),
{
    let at = body_slot(m, column)->0;
    let a = m.take(at);
    let b = m.skip(at);
    let close = utf8("</row>"@);
    lemma_opens();
    lemma_slot_pieces(m, column);
    lemma_columns_pieces(a, b, 0);
    lemma_columns_below(a, column, 0);
    lemma_later_cell(b, column, 0);
    lemma_find_from(b, utf8("<c "@), 0);
    if later_cell(b, column, 0) == Some(Some(0int)) {
        assert(find_from(b, utf8("<c "@), 0) == Some(0int));
    } else {
        lemma_find_from(m, close, 0);
        lemma_occurs_back(a, b, close, 0);
        if let Some(p) = find_from(b, utf8("<c "@), 0) {
            lemma_byte_at(b, utf8("<c "@), p, 0);
            lemma_byte_at(b, utf8("<c "@), p, 1);
            lemma_byte_at(b, close, 0, p);
            lemma_byte_at(b, close, 0, p + 1);
        }
    }
}

/// Setting a cell of a body keeps the cells in the order of their columns.
proof fn lemma_columns_set(m: Seq<u8>, coord: Seq<char>, value: Seq<char>)
    requires
        is_cell_name(coord),
        is_body(m),
        body_holds(m, coord),
        body_with(m, coord, value) is Some,
        is_increasing(cell_columns(m, 0)),
        cell_columns(m, 0).contains(leading_column(utf8(coord))) ==> tag_of(m, "<c "@, coord, 0) is Some,
    ensures
        ({
            let after = cell_columns(body_with(m, coord, value)->0, 0);
            &&& is_increasing(after)
            &&& has_one_more(cell_columns(m, 0), leading_column(utf8(coord))->0, after)
        }),
{
    let rest = body_without(m, coord);
    let column = leading_column(utf8(coord))->0;
    let at = body_slot(rest, column)->0;
    let cell = written_cell(coord, value);
    lemma_cell_pieces(m, coord);
    lemma_written_cell(coord, value);
    lemma_slot_pieces(rest, column);
    lemma_columns_at_slot(rest, column);
    lemma_columns_of_cell(cell, coord);
    let a = rest.take(at);
    let b = rest.skip(at);
    lemma_columns_pieces(a, cell + b, 0);
    lemma_columns_pieces(cell, b, 0);
    assert(insert(rest, at, cell) =~= a + (cell + b));
    let left = cell_columns(a, 0);
    let right = cell_columns(b, 0);
    let one = seq![Some(column)];
    assert(left + (one + right) =~= left + one + right);
    if let Some(s) = tag_of(m, "<c "@, coord, 0) {
        let e = element_stop(m, s, "</c>"@)->0;
        let p = m.take(s);
        let k = m.subrange(s, e);
        let q = m.skip(e);
        let before = cell_columns(p, 0);
        let behind = cell_columns(q, 0);
        lemma_columns_of_cell(k, coord);
        assert(m =~= p + (k + q));
        lemma_columns_pieces(p, k + q, 0);
        lemma_columns_pieces(k, q, 0);
        lemma_columns_pieces(p, q, 0);
        assert(before + (one + behind) =~= before + one + behind);
        lemma_one_less(before, column, behind);
        lemma_one_more(before, column, behind);
    }
    lemma_number_between(left, column, right);
    lemma_one_more(left, column, right);
}

/// Setting a cell keeps the cells of every row in the order of their columns, each in a column behind
/// those in front of it, where a cell of the same column in its row is found as that cell. The columns
/// of its row are those that there were, and that of the cell; those of the other rows are what they
/// were.
pub proof fn law_cells_stay_in_order(
    sheet: SheetView,
    coord: Seq<char>,
    value: Seq<char>,
    row: u32,
)
    requires
        can_hold(sheet, coord),
        keeps_row(sheet.xml, row),
        is_increasing(cell_columns(body_of(sheet.xml, row), 0)),
        coord_row(coord) == Some(row) && cell_columns(body_of(sheet.xml, row), 0).contains(
            leading_column(utf8(coord)),
        ) ==> tag_of(body_of(sheet.xml, row), "<c "@, coord, 0) is Some,
    ensures
        cell_set(sheet, coord, value) matches Some(outcome) ==> (outcome.result is Ok ==> {
            let before = cell_columns(body_of(sheet.xml, row), 0);
            let after = cell_columns(body_of(outcome.sheet.xml, row), 0);
            &&& is_increasing(after)
            &&& if coord_row(coord) == Some(row) {
                has_one_more(before, leading_column(utf8(coord))->0, after)
            } else {
                after == before
            }
        }),
{
    let number = coord_row(coord)->0;
    if let Some(outcome) = cell_set(sheet, coord, value) {
        if outcome.result is Ok {
            if row == number {
                let (a, t, r, b) = lemma_around_row(sheet.xml, number);
                let m = body_of(sheet.xml, number);
                lemma_set_between(sheet, number, a, t, r, b, coord, value);
                lemma_cell_set(m, coord, value);
                lemma_columns_set(m, coord, value);
                lemma_row_there(a, t, body_with(m, coord, value)->0, b, number);
            } else {
                law_other_rows_kept(sheet, coord, value, row);
            }
        }
    }
}

} // verus!
