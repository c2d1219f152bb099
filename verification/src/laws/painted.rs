//! What giving a style makes of a sheet, as it looks.

use vstd::prelude::*;
use crate::bytes::{find, insert, lemma_find_from, lemma_find_from_is, occurs_at, replace};
use crate::coord::cell_name;
use crate::error::ErrorView;
use crate::laws::bodies::{is_body, is_head, lemma_head_tag, lemma_in_body, lemma_row_without};
use crate::laws::cells::{
    lemma_bare_body, lemma_digits, lemma_inserted, lemma_replaced, lemma_row_made, lemma_row_there,
};
use crate::laws::picture::{
    all_fit, cell_picture, cells_picture, fit, head_picture, is_frame, leaves_out, lemma_around,
    lemma_cell_picture, lemma_cells_parts, lemma_cells_picture, lemma_head_picture,
    lemma_marked_bytes, lemma_one_cell, lemma_plain_head, lemma_split_sheet, lemma_written_picture,
    mark_text, name_in, rows_picture, sheet_picture, with_style_of, CellPicture, RowPicture,
};
use crate::laws::pieces::lemma_byte_at;
use crate::laws::placing::lemma_name;
use crate::laws::shapes::lemma_sheet_ends;
use crate::laws::styling::lemma_tag_replaced;
use crate::laws::tidy::{
    lemma_element_end, lemma_tag_behind, lemma_tag_in_front, lemma_tag_of_pieces, tidy,
};
use crate::paint::{cell_painted, cell_styled, row_marked, row_style, style_of};
use crate::sheet::{lemma_opens, lemma_quote, new_row, written_cell, SheetOutcome, SheetView};
use crate::tags::{
    is_ended, lemma_tag_of, refers_to, style_in_tag, tag_at, tag_of, tag_stop, tag_with_attribute,
};
use crate::text::{decimal, lemma_utf8_ascii, lemma_utf8_concat, utf8};

verus! {

// ---- a cell -------------------------------------------------------------------------------

/// The cells of a row around one of them.
proof fn lemma_around_cell(
    number: u32,
    left: Seq<CellPicture>,
    cell: CellPicture,
    right: Seq<CellPicture>,
)
    requires
        fit(left),
        fit(right),
        cell.column < u32::MAX - 1,
        leaves_out(left, cell.column),
        leaves_out(right, cell.column),
    ensures
        ({
            let close = utf8("</row>"@);
            let l = cells_picture(number, left);
            let r = cells_picture(number, right) + close;
            let k = cell_picture(number, cell);
            let m = cells_picture(number, left + seq![cell] + right) + close;
            let name = name_in(number, cell.column);
            &&& m == l + k + r
            &&& is_body(m)
            &&& tag_of(m, "<c "@, name, 0) == Some(l.len() as int)
            &&& tag_at(m, l.len() as int) == tag_at(k, 0)
        }),
{
    let close = utf8("</row>"@);
    let name = name_in(number, cell.column);
    let l = cells_picture(number, left);
    let r = cells_picture(number, right) + close;
    let all = left + seq![cell] + right;
    lemma_cells_parts(number, left + seq![cell], right);
    lemma_cells_parts(number, left, seq![cell]);
    lemma_one_cell(number, cell);
    lemma_cell_picture(number, cell, 0);
    lemma_cells_picture(number, left, cell.column);
    lemma_cells_picture(number, right, cell.column);
    lemma_bare_body();
    lemma_opens();
    lemma_sheet_ends();
    lemma_tag_of_pieces(cells_picture(number, right), close, "<c "@, name, 0);
    assert(fit(all)) by {
        assert forall|i: int| 0 <= i < all.len() implies (#[trigger] all[i]).column < u32::MAX - 1 by {
            if i < left.len() {
                assert(all[i] == left[i]);
            } else if i > left.len() {
                assert(all[i] == right[i - left.len() - 1]);
            }
        }
    }
    lemma_cells_picture(number, all, cell.column);
    let k = cell_picture(number, cell);
    assert(cells_picture(number, all) + close =~= l + k + r);
    lemma_in_body(l, k, r, name);
}

/// A style in the tag of a cell of a row.
#[verifier::spinoff_prover]
#[verifier::rlimit(60)]
proof fn lemma_cell_styled(
    number: u32,
    t: Seq<u8>,
    left: Seq<CellPicture>,
    cell: CellPicture,
    right: Seq<CellPicture>,
    style: u32,
)
    requires
        is_head(t),
        fit(left),
        fit(right),
        cell.column < u32::MAX - 1,
        leaves_out(left, cell.column),
        leaves_out(right, cell.column),
    ensures
        ({
            let close = utf8("</row>"@);
            let new = with_style_of(cell, Some(style));
            cell_styled(
                t + (cells_picture(number, left + seq![cell] + right) + close),
                name_in(number, cell.column),
                style,
            ) == Some(
                Ok::<Seq<u8>, ErrorView>(
                    t + (cells_picture(number, left + seq![new] + right) + close),
                ),
            )
        }),
{
    let close = utf8("</row>"@);
    let name = name_in(number, cell.column);
    let new = with_style_of(cell, Some(style));
    let l = cells_picture(number, left);
    let r = cells_picture(number, right) + close;
    let k = cell_picture(number, cell);
    let m = cells_picture(number, left + seq![cell] + right) + close;
    let set = tag_with_attribute(tag_at(k, 0), " s=\""@, decimal(style as nat))->0;
    lemma_around_cell(number, left, cell, right);
    lemma_around_cell(number, left, new, right);
    lemma_cell_picture(number, cell, style);
    lemma_row_without(t, m, name);
    assert(m =~= l + (k + r));
    lemma_sheet_ends();
    lemma_element_end(k, "<c "@, "</c>"@, name);
    lemma_tag_behind(l, k + r, 0);
    lemma_tag_in_front(k, r, 0);
    lemma_tag_behind(t, m, l.len() as int);
    let start = (t.len() + l.len()) as int;
    assert(tag_at(t + m, start) == tag_at(k, 0));
    crate::tags::lemma_tag_stop(t + m, start);
    crate::tags::lemma_tag_stop(k, 0);
    assert(tag_stop(t + m, start) == start + tag_stop(k, 0));
    crate::laws::tidy::lemma_tidy_tag(k, 0);
    assert(tag_at(k, 0).last() == k[tag_stop(k, 0) - 1]);
    assert(is_ended(tag_at(k, 0)));
    lemma_tag_replaced(t, l, k, r, set);
    assert(t + m =~= t + (l + (k + r)));
    assert(set + k.skip(tag_stop(k, 0)) == cell_picture(number, new));
}

/// A row gets a cell with a style at its end.
#[verifier::spinoff_prover]
#[verifier::rlimit(60)]
proof fn lemma_cell_added(
    number: u32,
    t: Seq<u8>,
    cells: Seq<CellPicture>,
    column: nat,
    style: u32,
)
    requires
        is_head(t),
        fit(cells),
        column < u32::MAX - 1,
        leaves_out(cells, column),
    ensures
        ({
            let close = utf8("</row>"@);
            let new = CellPicture { column, style: Some(style), value: None };
            cell_styled(
                t + (cells_picture(number, cells) + close),
                name_in(number, column),
                style,
            ) == Some(Ok::<Seq<u8>, ErrorView>(t + (cells_picture(number, cells.push(new)) + close)))
        }),
{
    let close = utf8("</row>"@);
    let name = name_in(number, column);
    let digits = decimal(style as nat);
    let new = CellPicture { column, style: Some(style), value: None };
    let x = cells_picture(number, cells);
    let m = x + close;
    let k = cell_picture(number, new);
    lemma_cells_picture(number, cells, column);
    lemma_bare_body();
    lemma_sheet_ends();
    lemma_opens();
    lemma_tag_of_pieces(x, close, "<c "@, name, 0);
    lemma_row_without(t, m, name);
    assert(cells.push(new).drop_last() =~= cells);
    assert("<c r=\""@ + name + "\""@ + (" s=\""@ + digits + "\""@) + "/>"@ =~= "<c r=\""@ + name + (
    "\" s=\""@ + digits + "\"/>"@)) by {
        reveal_strlit("\"");
        reveal_strlit("/>");
        reveal_strlit("\"/>");
        reveal_strlit("\" s=\"");
        reveal_strlit(" s=\"");
    }
    assert(insert(t + m, (t + m).len() - close.len(), k) =~= t + (x + k + close));
}

/// A cell of a row that is there, by the pieces around the row.
proof fn lemma_painted_pieces(
    a: Seq<u8>,
    t: Seq<u8>,
    m: Seq<u8>,
    n: Seq<u8>,
    b: Seq<u8>,
    number: u32,
    last_row: u32,
    column: nat,
    style: u32,
)
    requires
        tidy(a),
        tidy(b),
        tag_of(a, "<row "@, decimal(number as nat), 0) is None,
        is_head(t),
        refers_to(t, decimal(number as nat)),
        is_body(m),
        column < u32::MAX - 1,
        cell_styled(t + m, name_in(number, column), style) == Some(Ok::<Seq<u8>, ErrorView>(t + n)),
    ensures
        ({
            let xml = a + (t + m) + b;
            let name = name_in(number, column);
            &&& cell_painted(SheetView { xml, last_row }, name, style) == Some(
                SheetOutcome {
                    sheet: SheetView { xml: a + (t + n) + b, last_row },
                    result: Ok(()),
                },
            )
            &&& style_of(xml, name) == (match tag_of(m, "<c "@, name, 0) {
                None => Ok::<Option<u32>, ErrorView>(None),
                Some(at) => style_in_tag(tag_at(m, at), " s=\""@),
            })
        }),
{
    let name = name_in(number, column);
    lemma_row_there(a, t, m, b, number);
    lemma_row_made(t, m, number);
    lemma_name(column, number);
    assert(name == cell_name(column, number as nat));
    lemma_replaced(a, t + m, b, t + n);
    lemma_row_without(t, m, name);
    if let Some(at) = tag_of(m, "<c "@, name, 0) {
        lemma_tag_of(m, "<c "@, name, 0);
        lemma_tag_behind(t, m, at);
    }
}

/// Giving a style to a cell that is there changes the style of that cell, and nothing else.
#[verifier::spinoff_prover]
#[verifier::rlimit(60)]
pub proof fn law_cell_painted(
    head: Seq<u8>,
    above: Seq<RowPicture>,
    row: RowPicture,
    left: Seq<CellPicture>,
    cell: CellPicture,
    right: Seq<CellPicture>,
    below: Seq<RowPicture>,
    tail: Seq<u8>,
    last_row: u32,
    style: u32,
)
    requires
        is_frame(head, tail),
        all_fit(above),
        all_fit(below),
        forall|i: int| 0 <= i < above.len() ==> (#[trigger] above[i]).number < row.number,
        forall|i: int| 0 <= i < below.len() ==> (#[trigger] below[i]).number > row.number,
        row.cells == left + seq![cell] + right,
        fit(left),
        fit(right),
        cell.column < u32::MAX - 1,
        leaves_out(left, cell.column),
        leaves_out(right, cell.column),
    ensures
        ({
            let new = CellPicture { style: Some(style), ..cell };
            let set = RowPicture { cells: left + seq![new] + right, ..row };
            let xml = sheet_picture(head, above + seq![row] + below, tail);
            let name = name_in(row.number, cell.column);
            &&& cell_painted(SheetView { xml, last_row }, name, style) == Some(
                SheetOutcome {
                    sheet: SheetView {
                        xml: sheet_picture(head, above + seq![set] + below, tail),
                        last_row,
                    },
                    result: Ok(()),
                },
            )
            &&& style_of(xml, name) == Ok::<Option<u32>, ErrorView>(cell.style)
        }),
{
    let new = CellPicture { style: Some(style), ..cell };
    let set = RowPicture { cells: left + seq![new] + right, ..row };
    let number = row.number;
    let name = name_in(number, cell.column);
    let a = head + rows_picture(above);
    let b = rows_picture(below) + utf8("</sheetData>"@) + tail;
    let t = head_picture(number, row.style);
    let m = cells_picture(number, row.cells) + utf8("</row>"@);
    let n = cells_picture(number, set.cells) + utf8("</row>"@);
    assert(new == with_style_of(cell, Some(style)));
    lemma_around(head, above, below, tail, number);
    lemma_around_cell(number, left, cell, right);
    lemma_head_picture(number, row.style);
    lemma_split_sheet(head, above, row, below, tail);
    lemma_split_sheet(head, above, set, below, tail);
    lemma_cell_styled(number, t, left, cell, right, style);
    lemma_cell_picture(number, cell, style);
    lemma_painted_pieces(a, t, m, n, b, number, last_row, cell.column, style);
}

/// Giving a style to a cell that its row does not hold puts an empty cell with that style at the end of
/// the row, and changes nothing else.
#[verifier::spinoff_prover]
#[verifier::rlimit(60)]
pub proof fn law_cell_painted_at_end(
    head: Seq<u8>,
    above: Seq<RowPicture>,
    row: RowPicture,
    below: Seq<RowPicture>,
    tail: Seq<u8>,
    last_row: u32,
    column: nat,
    style: u32,
)
    requires
        is_frame(head, tail),
        all_fit(above),
        all_fit(below),
        forall|i: int| 0 <= i < above.len() ==> (#[trigger] above[i]).number < row.number,
        forall|i: int| 0 <= i < below.len() ==> (#[trigger] below[i]).number > row.number,
        fit(row.cells),
        column < u32::MAX - 1,
        leaves_out(row.cells, column),
    ensures
        ({
            let new = CellPicture { column, style: Some(style), value: None };
            let set = RowPicture { cells: row.cells.push(new), ..row };
            let xml = sheet_picture(head, above + seq![row] + below, tail);
            let name = name_in(row.number, column);
            &&& cell_painted(SheetView { xml, last_row }, name, style) == Some(
                SheetOutcome {
                    sheet: SheetView {
                        xml: sheet_picture(head, above + seq![set] + below, tail),
                        last_row,
                    },
                    result: Ok(()),
                },
            )
            &&& style_of(xml, name) == Ok::<Option<u32>, ErrorView>(None)
        }),
{
    let new = CellPicture { column, style: Some(style), value: None };
    let set = RowPicture { cells: row.cells.push(new), ..row };
    let number = row.number;
    let name = name_in(number, column);
    let a = head + rows_picture(above);
    let b = rows_picture(below) + utf8("</sheetData>"@) + tail;
    let t = head_picture(number, row.style);
    let x = cells_picture(number, row.cells);
    let m = x + utf8("</row>"@);
    let n = cells_picture(number, set.cells) + utf8("</row>"@);
    lemma_around(head, above, below, tail, number);
    lemma_cells_picture(number, row.cells, column);
    lemma_head_picture(number, row.style);
    lemma_split_sheet(head, above, row, below, tail);
    lemma_split_sheet(head, above, set, below, tail);
    lemma_cell_added(number, t, row.cells, column, style);
    assert(tag_of(m, "<c "@, name, 0) is None) by {
        lemma_bare_body();
        lemma_opens();
        lemma_sheet_ends();
        lemma_tag_of_pieces(x, utf8("</row>"@), "<c "@, name, 0);
    }
    lemma_painted_pieces(a, t, m, n, b, number, last_row, column, style);
}

/// Giving a style to a cell of a row that is not there makes the row, with that cell alone, between the
/// rows with smaller numbers and those with larger ones. The cell holds an empty text.
#[verifier::spinoff_prover]
#[verifier::rlimit(60)]
pub proof fn law_cell_painted_in_new_row(
    head: Seq<u8>,
    above: Seq<RowPicture>,
    number: u32,
    below: Seq<RowPicture>,
    tail: Seq<u8>,
    last_row: u32,
    column: nat,
    style: u32,
)
    requires
        is_frame(head, tail),
        all_fit(above),
        all_fit(below),
        forall|i: int| 0 <= i < above.len() ==> (#[trigger] above[i]).number < number,
        forall|i: int| 0 <= i < below.len() ==> (#[trigger] below[i]).number > number,
        column < u32::MAX - 1,
    ensures
        ({
            let new = CellPicture { column, style: Some(style), value: Some(""@) };
            let row = RowPicture { number, style: None, cells: seq![new] };
            let xml = sheet_picture(head, above + below, tail);
            let name = name_in(number, column);
            &&& cell_painted(SheetView { xml, last_row }, name, style) == Some(
                SheetOutcome {
                    sheet: SheetView {
                        xml: sheet_picture(head, above + seq![row] + below, tail),
                        last_row: if number > last_row {
                            number
                        } else {
                            last_row
                        },
                    },
                    result: Ok(()),
                },
            )
            &&& style_of(xml, name) == Ok::<Option<u32>, ErrorView>(None)
        }),
{
    let old_cell = CellPicture { column, style: None, value: Some(""@) };
    let new = CellPicture { column, style: Some(style), value: Some(""@) };
    let row = RowPicture { number, style: None, cells: seq![new] };
    let name = name_in(number, column);
    let none = Seq::<CellPicture>::empty();
    let close = utf8("</row>"@);
    let a = head + rows_picture(above);
    let b = rows_picture(below) + utf8("</sheetData>"@) + tail;
    let t = head_picture(number, None);
    lemma_around(head, above, below, tail, number);
    lemma_split_sheet(head, above, row, below, tail);
    lemma_head_picture(number, None);
    lemma_plain_head(number);
    lemma_written_picture(number, column, ""@);
    lemma_one_cell(number, old_cell);
    assert(new == with_style_of(old_cell, Some(style)));
    assert(none + seq![old_cell] + none =~= seq![old_cell]);
    assert(none + seq![new] + none =~= seq![new]);
    lemma_cell_styled(number, t, none, old_cell, none, style);
    lemma_name(column, number);
    assert(name == cell_name(column, number as nat));
    let k = written_cell(name, ""@);
    assert(new_row(number, k) =~= t + (k + close));
    lemma_inserted(a, b, t + (cells_picture(number, seq![new]) + close));
}

// ---- a row --------------------------------------------------------------------------------

/// A byte string that starts with a space does not stand where there is none.
proof fn lemma_no_space(x: Seq<u8>, needle: Seq<u8>, p: int)
    requires
        needle.len() > 0,
        needle[0] == 32,
        0 <= p < x.len() ==> x[p] != 32,
    ensures
        !occurs_at(x, needle, p),
{
    if occurs_at(x, needle, p) {
        lemma_byte_at(x, needle, p, 0);
    }
}

/// The two attributes that a row with a style carries, in the tag of a row without one.
#[verifier::spinoff_prover]
#[verifier::rlimit(60)]
proof fn lemma_marked_first(number: u32, style: u32)
    ensures
        ({
            let set = tag_with_attribute(head_picture(number, None), " s=\""@, decimal(style as nat));
            &&& set is Some
            &&& tag_with_attribute(set->0, " customFormat=\""@, "1"@) == Some(
                head_picture(number, Some(style)),
            )
        }),
{
    let d = utf8(decimal(number as nat));
    let e = utf8(decimal(style as nat));
    let n = d.len() as int;
    let f = seq![60u8, 114u8, 111u8, 119u8, 32u8, 114u8, 61u8, 34u8];
    let s = utf8(" s=\""@);
    let c = utf8(" customFormat=\""@);
    let q = utf8("\""@);
    let t = head_picture(number, None);
    lemma_plain_head(number);
    lemma_marked_bytes(number, style);
    lemma_digits(number as nat);
    lemma_digits(style as nat);
    lemma_quote();
    assert(t =~= f + d + seq![34u8, 62u8]) by {
        reveal_strlit("<row r=\"");
        reveal_strlit("\">");
        lemma_utf8_ascii("<row r=\""@);
        lemma_utf8_ascii("\">"@);
        lemma_utf8_concat("<row r=\""@, decimal(number as nat));
        lemma_utf8_concat("<row r=\""@ + decimal(number as nat), "\">"@);
    }
    assert(s =~= seq![32u8, 115u8, 61u8, 34u8]) by {
        reveal_strlit(" s=\"");
        lemma_utf8_ascii(" s=\""@);
    }
    assert(q =~= seq![34u8]);
    assert(utf8("1"@) =~= seq![49u8]) by {
        reveal_strlit("1");
        lemma_utf8_ascii("1"@);
    }
    // the style
    assert forall|p: int| 0 <= p < t.len() implies !#[trigger] occurs_at(t, s, p) by {
        if p == 4 {
            if occurs_at(t, s, p) {
                lemma_byte_at(t, s, p, 1);
            }
        } else {
            if 8 <= p < 8 + n {
                assert(t[p] == d[p - 8]);
            }
            lemma_no_space(t, s, p);
        }
    }
    lemma_find_from(t, s, 0);
    lemma_utf8_concat(" s=\""@, decimal(style as nat));
    lemma_utf8_concat(" s=\""@ + decimal(style as nat), "\""@);
    assert(t[t.len() - 2] == 34);
    let u = f + d + seq![34u8] + (s + e + q) + seq![62u8];
    assert(insert(t, t.len() - 1, s + e + q) =~= u);
    // that it counts
    assert forall|p: int| 0 <= p < u.len() implies !#[trigger] occurs_at(u, c, p) by {
        if p == 4 {
            if occurs_at(u, c, p) {
                lemma_byte_at(u, c, p, 1);
            }
        } else if p == 9 + n {
            if occurs_at(u, c, p) {
                lemma_byte_at(u, c, p, 1);
            }
        } else {
            if 8 <= p < 8 + n {
                assert(u[p] == d[p - 8]);
            } else if 13 + n <= p < 13 + n + e.len() {
                assert(u[p] == e[p - 13 - n]);
            }
            lemma_no_space(u, c, p);
        }
    }
    lemma_find_from(u, c, 0);
    lemma_utf8_concat(" customFormat=\""@, "1"@);
    lemma_utf8_concat(" customFormat=\""@ + "1"@, "\""@);
    assert(u[u.len() - 2] == 34);
    assert(insert(u, u.len() - 1, c + seq![49u8] + q) =~= head_picture(number, Some(style)));
}

/// The two attributes that a row with a style carries, in the tag of a row with another.
#[verifier::spinoff_prover]
#[verifier::rlimit(60)]
proof fn lemma_marked_again(number: u32, old_style: u32, style: u32)
    ensures
        ({
            let t = head_picture(number, Some(old_style));
            let set = tag_with_attribute(t, " s=\""@, decimal(style as nat));
            &&& set is Some
            &&& tag_with_attribute(set->0, " customFormat=\""@, "1"@) == Some(
                head_picture(number, Some(style)),
            )
            &&& style_in_tag(t, " s=\""@) == Ok::<Option<u32>, ErrorView>(Some(old_style))
        }),
{
    let d = utf8(decimal(number as nat));
    let n = d.len() as int;
    let o = utf8(decimal(old_style as nat));
    let e = utf8(decimal(style as nat));
    let s = utf8(" s=\""@);
    let c = utf8(" customFormat=\""@);
    let q = utf8("\""@);
    let t = head_picture(number, Some(old_style));
    let u = head_picture(number, Some(style));
    lemma_marked_bytes(number, old_style);
    lemma_marked_bytes(number, style);
    lemma_digits(number as nat);
    lemma_digits(old_style as nat);
    lemma_digits(style as nat);
    lemma_quote();
    assert(s =~= seq![32u8, 115u8, 61u8, 34u8]) by {
        reveal_strlit(" s=\"");
        lemma_utf8_ascii(" s=\""@);
    }
    assert(utf8("1"@) =~= seq![49u8]) by {
        reveal_strlit("1");
        lemma_utf8_ascii("1"@);
    }
    lemma_first_attribute(number, old_style);
    lemma_first_attribute(number, style);
    assert forall|p: int| 13 + n <= p < 13 + n + o.len() implies !#[trigger] occurs_at(t, q, p) by {
        if occurs_at(t, q, p) {
            lemma_byte_at(t, q, p, 0);
            assert(t[p] == o[p - 13 - n]);
        }
    }
    assert(t.subrange(13 + n + o.len(), 14 + n + o.len()) =~= q);
    lemma_find_from_is(t, q, 13 + n, 13 + n + o.len());
    assert(replace(t, 13 + n, 13 + n + o.len(), e) =~= u);
    assert(t.subrange(13 + n, 13 + n + o.len()) =~= o);
    let at = 29 + n + e.len();
    assert(u.subrange(at + 1, at + 2) =~= q);
    assert(!occurs_at(u, q, at)) by {
        if occurs_at(u, q, at) {
            lemma_byte_at(u, q, at, 0);
        }
    }
    lemma_find_from_is(u, q, at, at + 1);
    assert(replace(u, at, at + 1, utf8("1"@)) =~= u);
}

/// Where the attributes of the tag of a row with a style stand.
#[verifier::spinoff_prover]
#[verifier::rlimit(60)]
proof fn lemma_first_attribute(number: u32, style: u32)
    ensures
        ({
            let t = head_picture(number, Some(style));
            let n = utf8(decimal(number as nat)).len() as int;
            &&& find(t, utf8(" s=\""@)) == Some(9 + n)
            &&& find(t, utf8(" customFormat=\""@)) == Some(
                14 + n + utf8(decimal(style as nat)).len(),
            )
        }),
{
    let d = utf8(decimal(number as nat));
    let n = d.len() as int;
    let e = utf8(decimal(style as nat));
    let m = e.len() as int;
    let s = utf8(" s=\""@);
    let c = utf8(" customFormat=\""@);
    let t = head_picture(number, Some(style));
    lemma_marked_bytes(number, style);
    lemma_digits(number as nat);
    lemma_digits(style as nat);
    assert(s =~= seq![32u8, 115u8, 61u8, 34u8]) by {
        reveal_strlit(" s=\"");
        lemma_utf8_ascii(" s=\""@);
    }
    assert forall|p: int| 0 <= p < 14 + n + m && p != 4 && p != 9 + n implies #[trigger] t[p] != 32 by {
        if 8 <= p < 8 + n {
            assert(t[p] == d[p - 8]);
        } else if 13 + n <= p < 13 + n + m {
            assert(t[p] == e[p - 13 - n]);
        }
    }
    assert forall|p: int| 0 <= p < 9 + n implies !#[trigger] occurs_at(t, s, p) by {
        if p == 4 {
            if occurs_at(t, s, p) {
                lemma_byte_at(t, s, p, 1);
            }
        } else {
            lemma_no_space(t, s, p);
        }
    }
    assert(t.subrange(9 + n, 13 + n) =~= s);
    lemma_find_from_is(t, s, 0, 9 + n);
    assert forall|p: int| 0 <= p < 14 + n + m implies !#[trigger] occurs_at(t, c, p) by {
        if p == 4 || p == 9 + n {
            if occurs_at(t, c, p) {
                lemma_byte_at(t, c, p, 1);
            }
        } else {
            lemma_no_space(t, c, p);
        }
    }
    assert(t.subrange(14 + n + m, 29 + n + m) =~= c);
    lemma_find_from_is(t, c, 0, 14 + n + m);
}

/// The tag of a row without a style has none.
proof fn lemma_unmarked(number: u32)
    ensures
        style_in_tag(head_picture(number, None), " s=\""@) == Ok::<Option<u32>, ErrorView>(None),
{
    let t = head_picture(number, None);
    let d = utf8(decimal(number as nat));
    let n = d.len() as int;
    let s = utf8(" s=\""@);
    lemma_plain_head(number);
    lemma_digits(number as nat);
    assert(t =~= seq![60u8, 114u8, 111u8, 119u8, 32u8, 114u8, 61u8, 34u8] + d + seq![34u8, 62u8]) by {
        reveal_strlit("<row r=\"");
        reveal_strlit("\">");
        lemma_utf8_ascii("<row r=\""@);
        lemma_utf8_ascii("\">"@);
        lemma_utf8_concat("<row r=\""@, decimal(number as nat));
        lemma_utf8_concat("<row r=\""@ + decimal(number as nat), "\">"@);
    }
    assert(s =~= seq![32u8, 115u8, 61u8, 34u8]) by {
        reveal_strlit(" s=\"");
        lemma_utf8_ascii(" s=\""@);
    }
    assert forall|p: int| 0 <= p < t.len() implies !#[trigger] occurs_at(t, s, p) by {
        if p == 4 {
            if occurs_at(t, s, p) {
                lemma_byte_at(t, s, p, 1);
            }
        } else {
            if 8 <= p < 8 + n {
                assert(t[p] == d[p - 8]);
            }
            lemma_no_space(t, s, p);
        }
    }
    lemma_find_from(t, s, 0);
}

/// Giving a style to a row that is there changes the style of that row, and nothing else: its cells stay
/// as they are.
#[verifier::spinoff_prover]
#[verifier::rlimit(60)]
pub proof fn law_row_marked(
    head: Seq<u8>,
    above: Seq<RowPicture>,
    row: RowPicture,
    below: Seq<RowPicture>,
    tail: Seq<u8>,
    style: u32,
)
    requires
        is_frame(head, tail),
        all_fit(above),
        all_fit(below),
        forall|i: int| 0 <= i < above.len() ==> (#[trigger] above[i]).number < row.number,
        forall|i: int| 0 <= i < below.len() ==> (#[trigger] below[i]).number > row.number,
        fit(row.cells),
    ensures
        ({
            let set = RowPicture { style: Some(style), ..row };
            let xml = sheet_picture(head, above + seq![row] + below, tail);
            &&& row_marked(xml, row.number, style) == Some(
                Ok::<Seq<u8>, ErrorView>(sheet_picture(head, above + seq![set] + below, tail)),
            )
            &&& row_style(xml, row.number) == Ok::<Option<u32>, ErrorView>(row.style)
        }),
{
    let set = RowPicture { style: Some(style), ..row };
    let number = row.number;
    let a = head + rows_picture(above);
    let b = rows_picture(below) + utf8("</sheetData>"@) + tail;
    let t = head_picture(number, row.style);
    let u = head_picture(number, Some(style));
    let m = cells_picture(number, row.cells) + utf8("</row>"@);
    let xml = sheet_picture(head, above + seq![row] + below, tail);
    lemma_around(head, above, below, tail, number);
    lemma_cells_picture(number, row.cells, 0);
    lemma_head_picture(number, row.style);
    lemma_row_there(a, t, m, b, number);
    lemma_split_sheet(head, above, row, below, tail);
    lemma_split_sheet(head, above, set, below, tail);
    match row.style {
        None => {
            lemma_marked_first(number, style);
            lemma_unmarked(number);
        },
        Some(s) => {
            lemma_marked_again(number, s, style);
        },
    }
    // the tag in the document
    lemma_head_tag(t, m + b);
    assert(xml =~= a + (t + (m + b)));
    lemma_tag_in_front(t, m + b, 0);
    lemma_tag_behind(a, t + (m + b), 0);
    crate::tags::lemma_tag_stop(t + (m + b), 0);
    assert(replace(xml, a.len() as int, (a.len() + t.len()) as int, u) =~= a + (u + m) + b);
}

/// Giving a style to a row that is not there makes the row, without cells, between the rows with smaller
/// numbers and those with larger ones.
pub proof fn law_new_row_marked(
    head: Seq<u8>,
    above: Seq<RowPicture>,
    number: u32,
    below: Seq<RowPicture>,
    tail: Seq<u8>,
    style: u32,
)
    requires
        is_frame(head, tail),
        all_fit(above),
        all_fit(below),
        forall|i: int| 0 <= i < above.len() ==> (#[trigger] above[i]).number < number,
        forall|i: int| 0 <= i < below.len() ==> (#[trigger] below[i]).number > number,
    ensures
        ({
            let row = RowPicture { number, style: Some(style), cells: Seq::empty() };
            let xml = sheet_picture(head, above + below, tail);
            &&& row_marked(xml, number, style) == Some(
                Ok::<Seq<u8>, ErrorView>(sheet_picture(head, above + seq![row] + below, tail)),
            )
            &&& row_style(xml, number) == Ok::<Option<u32>, ErrorView>(None)
        }),
{
    let row = RowPicture { number, style: Some(style), cells: Seq::empty() };
    let x = decimal(number as nat);
    let y = decimal(style as nat);
    let a = head + rows_picture(above);
    let b = rows_picture(below) + utf8("</sheetData>"@) + tail;
    let close = utf8("</row>"@);
    lemma_around(head, above, below, tail, number);
    lemma_split_sheet(head, above, row, below, tail);
    let front = "<row r=\""@ + x + "\""@ + mark_text(Some(style)) + ">"@;
    assert("<row r=\""@ + x + ("\" s=\""@ + y + "\" customFormat=\"1\"></row>"@) =~= front + "</row>"@)
        by {
        reveal_strlit("\"");
        reveal_strlit(" s=\"");
        reveal_strlit("\" s=\"");
        reveal_strlit("\" customFormat=\"1\"");
        reveal_strlit("\" customFormat=\"1\"></row>");
        reveal_strlit(">");
        reveal_strlit("</row>");
    }
    lemma_utf8_concat(front, "</row>"@);
    assert(cells_picture(number, row.cells) + close =~= close);
    lemma_inserted(a, b, head_picture(number, Some(style)) + close);
}

} // verus!
