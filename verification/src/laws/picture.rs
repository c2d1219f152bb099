//! Sheets as they look: rows of cells, and what the operations make of them.

use vstd::prelude::*;
use crate::bytes::{find, insert, lemma_find_from, lemma_rfind, occurs_at, rfind};
use crate::coord::{cell_name, column_letters, is_cell_name};
use crate::error::ErrorView;
use crate::laws::bodies::{
    body_holds, body_slot, body_with, body_without, is_body, is_head, lemma_body_insert,
    lemma_in_body, lemma_later_of_cell, lemma_later_pieces,
};
use crate::laws::cells::{
    is_row, lemma_bare_body, lemma_digits, lemma_inserted, lemma_new_head, lemma_other_digits,
    lemma_row_made, lemma_row_there, lemma_set_between, new_head,
};
use crate::laws::commuting::lemma_other_element;
use crate::laws::marks::law_attribute_overwritten;
use crate::laws::placing::{lemma_name, lemma_written_row};
use crate::laws::shapes::{
    cell_head, cell_inner, lemma_ascii_tag, lemma_cell_shape, lemma_head, lemma_not_in_tag,
    lemma_reference, lemma_refers, lemma_sheet_ends,
};
use crate::laws::styling::{
    bare_cell, has_plain_style, lemma_bare_cell, lemma_given_plain, lemma_new_styled,
    lemma_style_head, lemma_styled_cell,
};
use crate::laws::tidy::{
    is_element, lemma_find_pieces, lemma_rfind_pieces, lemma_tag_in_front, lemma_tag_of_pieces,
    lemma_tidy_join, tidy,
};
use crate::laws::writing::law_cell_written;
use crate::sheet::{
    cell_set, later_cell, lemma_opens, lemma_quote, new_row, row_found, row_place, row_slot,
    written_cell, SheetOutcome, SheetView,
};
use crate::tags::{
    lemma_bracket, refers_to, style_in_tag, tag_at, tag_of, tag_stop, tag_with_attribute,
};
use crate::text::{decimal, is_number, lemma_utf8_ascii, lemma_utf8_concat, utf8};
use crate::xml::escaped;

verus! {

// ---- pictures -----------------------------------------------------------------------------

/// A cell: the index of its column, its style, and its value. A cell without a value closes itself.
pub struct CellPicture {
    pub column: nat,
    pub style: Option<u32>,
    pub value: Option<Seq<char>>,
}

/// A row: its number, its style and its cells.
pub struct RowPicture {
    pub number: u32,
    pub style: Option<u32>,
    pub cells: Seq<CellPicture>,
}

/// The style in the tag of a cell.
pub open spec fn style_text(style: Option<u32>) -> Seq<char> {
    match style {
        Some(s) => " s=\""@ + decimal(s as nat) + "\""@,
        None => ""@,
    }
}

/// What stands in the tag of a cell in front of its style.
pub open spec fn cell_front(name: Seq<char>, value: Seq<char>) -> Seq<char> {
    if (value.len() > 0 && value[0] == '=') || is_number(value) {
        "<c r=\""@ + name + "\""@
    } else {
        "<c r=\""@ + name + "\" t=\"inlineStr\""@
    }
}

/// What stands behind the style of a cell.
pub open spec fn cell_back(value: Seq<char>) -> Seq<char> {
    if value.len() > 0 && value[0] == '=' {
        "><f>"@ + escaped(value.skip(1)) + "</f></c>"@
    } else if is_number(value) {
        "><v>"@ + escaped(value) + "</v></c>"@
    } else {
        "><is><t>"@ + escaped(value) + "</t></is></c>"@
    }
}

/// The name of a cell of row `number`.
pub open spec fn name_in(number: u32, column: nat) -> Seq<char> {
    column_letters(column) + decimal(number as nat)
}

/// A cell of row `number` as it stands in a document.
pub open spec fn cell_picture(number: u32, cell: CellPicture) -> Seq<u8> {
    let name = name_in(number, cell.column);
    match cell.value {
        Some(value) => utf8(cell_front(name, value) + style_text(cell.style) + cell_back(value)),
        None => utf8("<c r=\""@ + name + "\""@ + style_text(cell.style) + "/>"@),
    }
}

/// The cells of row `number` as they stand in a document.
pub open spec fn cells_picture(number: u32, cells: Seq<CellPicture>) -> Seq<u8>
    decreases cells.len(),
{
    if cells.len() == 0 {
        Seq::empty()
    } else {
        cells_picture(number, cells.drop_last()) + cell_picture(number, cells.last())
    }
}

/// The style in the tag of a row.
pub open spec fn mark_text(style: Option<u32>) -> Seq<char> {
    match style {
        Some(s) => " s=\""@ + decimal(s as nat) + "\" customFormat=\"1\""@,
        None => ""@,
    }
}

/// The tag of a row as it stands in a document.
pub open spec fn head_picture(number: u32, style: Option<u32>) -> Seq<u8> {
    utf8("<row r=\""@ + decimal(number as nat) + "\""@ + mark_text(style) + ">"@)
}

/// A row as it stands in a document.
pub open spec fn row_picture(row: RowPicture) -> Seq<u8> {
    head_picture(row.number, row.style) + cells_picture(row.number, row.cells) + utf8("</row>"@)
}

/// Rows as they stand in a document.
pub open spec fn rows_picture(rows: Seq<RowPicture>) -> Seq<u8>
    decreases rows.len(),
{
    if rows.len() == 0 {
        Seq::empty()
    } else {
        rows_picture(rows.drop_last()) + row_picture(rows.last())
    }
}

/// A sheet with rows between what stands in front of them and the end of the data.
pub open spec fn sheet_picture(head: Seq<u8>, rows: Seq<RowPicture>, tail: Seq<u8>) -> Seq<u8> {
    head + rows_picture(rows) + utf8("</sheetData>"@) + tail
}

/// What stands around the rows of a sheet: tags that end, no row, and no end of the data behind it.
pub open spec fn is_frame(head: Seq<u8>, tail: Seq<u8>) -> bool {
    &&& tidy(head)
    &&& tidy(tail)
    &&& find(head, utf8("<row "@)) is None
    &&& find(tail, utf8("<row "@)) is None
    &&& find(tail, utf8("</sheetData>"@)) is None
}

/// The columns of cells can be numbered.
pub open spec fn fit(cells: Seq<CellPicture>) -> bool {
    forall|i: int| 0 <= i < cells.len() ==> (#[trigger] cells[i]).column < u32::MAX - 1
}

/// No cell stands in the column `column`.
pub open spec fn leaves_out(cells: Seq<CellPicture>, column: nat) -> bool {
    forall|i: int| 0 <= i < cells.len() ==> (#[trigger] cells[i]).column != column
}

// ---- one cell -----------------------------------------------------------------------------

/// A cell that was written, as it looks.
pub proof fn lemma_written_picture(number: u32, column: nat, value: Seq<char>)
    requires
        column < u32::MAX,
    ensures
        ({
            let name = name_in(number, column);
            let front = utf8(cell_front(name, value));
            let back = utf8(cell_back(value));
            &&& is_cell_name(name)
            &&& written_cell(name, value) == front + back
            &&& written_cell(name, value) == cell_picture(
                number,
                CellPicture { column, style: None, value: Some(value) },
            )
            &&& tag_at(written_cell(name, value), 0) == front + utf8(">"@)
            &&& front.len() > 0
            &&& front.last() == 34
            &&& back.len() > 0
            &&& back == utf8(">"@) + back.skip(1)
        }),
{
    let name = name_in(number, column);
    let front = cell_front(name, value);
    let back = cell_back(value);
    lemma_name(column, number);
    assert(name == cell_name(column, number as nat));
    law_cell_written(name, value);
    reveal_strlit("=");
    if value.len() > 0 && value[0] == '=' {
        assert(value =~= "="@ + value.skip(1));
        law_cell_written(name, value.skip(1));
    }
    lemma_front_and_back(name, value);
    lemma_utf8_concat(front, back);
    reveal_strlit("");
    assert(front + ""@ + back =~= front + back);
    // the tag
    let head = cell_head(name, value);
    lemma_cell_shape(name, value);
    lemma_head(name, value);
    let rest = cell_inner(value) + utf8("</c>"@);
    assert(written_cell(name, value) =~= utf8(head) + rest);
    lemma_tag_in_front(utf8(head), rest, 0);
    lemma_utf8_concat(front, ">"@);
    lemma_bracket();
    lemma_back_starts(value);
    lemma_front_ends(name, value);
}

/// The last byte of what stands in front of a style.
proof fn lemma_front_ends(name: Seq<char>, value: Seq<char>)
    ensures
        utf8(cell_front(name, value)).len() > 0,
        utf8(cell_front(name, value)).last() == 34,
{
    let front = cell_front(name, value);
    reveal_strlit("\"");
    reveal_strlit("\" t=\"inlineStr\"");
    let start = front.drop_last();
    assert(front =~= start + "\""@);
    lemma_utf8_concat(start, "\""@);
    lemma_quote();
    let bytes = utf8(start) + utf8("\""@);
    assert(bytes[bytes.len() - 1] == utf8("\""@)[0]);
}

/// The first byte of what stands behind a style.
proof fn lemma_back_starts(value: Seq<char>)
    ensures
        utf8(cell_back(value)).len() > 0,
        utf8(cell_back(value)) == utf8(">"@) + utf8(cell_back(value)).skip(1),
{
    let back = cell_back(value);
    reveal_strlit(">");
    reveal_strlit("><f>");
    reveal_strlit("><v>");
    reveal_strlit("><is><t>");
    let rest = back.skip(1);
    assert(back =~= ">"@ + rest);
    lemma_utf8_concat(">"@, rest);
    lemma_bracket();
    let bytes = utf8(">"@) + utf8(rest);
    assert(bytes =~= utf8(">"@) + bytes.skip(1));
}

/// The two parts of a cell.
proof fn lemma_front_and_back(name: Seq<char>, value: Seq<char>)
    ensures
        value.len() > 0 && value[0] == '=' ==> cell_front(name, value) + cell_back(value) == "<c r=\""@
            + name + "\"><f>"@ + escaped(value.skip(1)) + "</f></c>"@,
        !(value.len() > 0 && value[0] == '=') && is_number(value) ==> cell_front(name, value) + cell_back(
            value,
        ) == "<c r=\""@ + name + "\"><v>"@ + escaped(value) + "</v></c>"@,
        !(value.len() > 0 && value[0] == '=') && !is_number(value) ==> cell_front(name, value)
            + cell_back(value) == "<c r=\""@ + name + "\" t=\"inlineStr\"><is><t>"@ + escaped(value)
            + "</t></is></c>"@,
        cell_front(name, value) + ">"@ == cell_head(name, value),
{
    reveal_strlit("\"");
    reveal_strlit("\" t=\"inlineStr\"");
    reveal_strlit("\" t=\"inlineStr\">");
    reveal_strlit("><f>");
    reveal_strlit("\"><f>");
    reveal_strlit("><v>");
    reveal_strlit("\"><v>");
    reveal_strlit("><is><t>");
    reveal_strlit("\" t=\"inlineStr\"><is><t>");
    reveal_strlit(">");
    reveal_strlit("\">");
    let both = cell_front(name, value) + cell_back(value);
    if value.len() > 0 && value[0] == '=' {
        assert(both =~= "<c r=\""@ + name + "\"><f>"@ + escaped(value.skip(1)) + "</f></c>"@);
    } else if is_number(value) {
        assert(both =~= "<c r=\""@ + name + "\"><v>"@ + escaped(value) + "</v></c>"@);
    } else {
        assert(both =~= "<c r=\""@ + name + "\" t=\"inlineStr\"><is><t>"@ + escaped(value)
            + "</t></is></c>"@);
    }
    assert(cell_front(name, value) + ">"@ =~= cell_head(name, value));
}

/// A cell with another style.
pub open spec fn with_style_of(cell: CellPicture, style: Option<u32>) -> CellPicture {
    CellPicture { style, ..cell }
}

/// A cell without a style that is given one.
#[verifier::spinoff_prover]
#[verifier::rlimit(60)]
proof fn lemma_first_style(number: u32, cell: CellPicture, style: u32)
    requires
        cell.column < u32::MAX,
        cell.style is None,
    ensures
        ({
            let k = cell_picture(number, cell);
            let n = cell_picture(number, with_style_of(cell, Some(style)));
            let set = tag_with_attribute(tag_at(k, 0), " s=\""@, decimal(style as nat));
            let name = name_in(number, cell.column);
            &&& is_element(k, "<c "@, "</c>"@, name)
            &&& find(k, utf8("</row>"@)) is None
            &&& find(k, utf8("<row "@)) is None
            &&& find(k, utf8("</sheetData>"@)) is None
            &&& find(tag_at(k, 0), utf8(" s=\""@)) is None
            &&& set is Some
            &&& n == set->0 + k.skip(tag_stop(k, 0))
        }),
{
    let name = name_in(number, cell.column);
    let digits = decimal(style as nat);
    let k = cell_picture(number, cell);
    lemma_name(cell.column, number);
    assert(name == cell_name(cell.column, number as nat));
    reveal_strlit("");
    match cell.value {
        Some(value) => {
            let front = utf8(cell_front(name, value));
            let back = utf8(cell_back(value));
            let tag = front + utf8(">"@);
            lemma_written_picture(number, cell.column, value);
            assert(k == written_cell(name, value));
            crate::laws::shapes::lemma_written_cell(name, value);
            crate::laws::shapes::lemma_no_style(name, value);
            lemma_bracket();
            let new = utf8(" s=\""@ + digits + "\""@);
            assert(tag[tag.len() - 2] == front[front.len() - 1]);
            assert(insert(tag, tag.len() - 1, new) =~= front + new + utf8(">"@));
            crate::tags::lemma_tag_stop(k, 0);
            assert(tag_stop(k, 0) == tag.len());
            assert(k.skip(tag.len() as int) =~= back.skip(1));
            lemma_utf8_concat(cell_front(name, value), " s=\""@ + digits + "\""@);
            lemma_utf8_concat(
                cell_front(name, value) + (" s=\""@ + digits + "\""@),
                cell_back(value),
            );
            assert(front + new + utf8(">"@) + back.skip(1) =~= front + new + back);
        },
        None => {
            reveal_strlit("\"/>");
            reveal_strlit("\"");
            reveal_strlit("/>");
            reveal_strlit("\" s=\"");
            reveal_strlit(" s=\"");
            assert("<c r=\""@ + name + "\""@ + ""@ + "/>"@ =~= "<c r=\""@ + name + "\"/>"@);
            assert(k == bare_cell(name));
            lemma_bare_cell(name);
            lemma_new_styled(name, style);
            assert("<c r=\""@ + name + "\""@ + (" s=\""@ + digits + "\""@) + "/>"@ =~= "<c r=\""@
                + name + ("\" s=\""@ + digits + "\"/>"@));
            let n = cell_picture(number, with_style_of(cell, Some(style)));
            assert(k.skip(k.len() as int) =~= Seq::empty());
            assert(n + k.skip(k.len() as int) =~= n);
        },
    }
}

/// A cell as it looks: it is an element with its name, it is read with its style, and giving it a style
/// makes it look like the cell with that style.
#[verifier::spinoff_prover]
#[verifier::rlimit(60)]
pub proof fn lemma_cell_picture(number: u32, cell: CellPicture, style: u32)
    requires
        cell.column < u32::MAX,
    ensures
        ({
            let k = cell_picture(number, cell);
            let n = cell_picture(number, with_style_of(cell, Some(style)));
            let set = tag_with_attribute(tag_at(k, 0), " s=\""@, decimal(style as nat));
            let name = name_in(number, cell.column);
            &&& is_element(k, "<c "@, "</c>"@, name)
            &&& find(k, utf8("</row>"@)) is None
            &&& find(k, utf8("<row "@)) is None
            &&& find(k, utf8("</sheetData>"@)) is None
            &&& has_plain_style(tag_at(k, 0))
            &&& style_in_tag(tag_at(k, 0), " s=\""@) == Ok::<Option<u32>, ErrorView>(cell.style)
            &&& set is Some
            &&& n == set->0 + k.skip(tag_stop(k, 0))
        }),
{
    let name = name_in(number, cell.column);
    match cell.style {
        None => {
            lemma_first_style(number, cell, style);
        },
        Some(first) => {
            let plain = with_style_of(cell, None);
            let p = cell_picture(number, plain);
            let tag = tag_at(p, 0);
            lemma_first_style(number, plain, first);
            lemma_first_style(number, plain, style);
            assert(with_style_of(plain, Some(first)) == cell);
            assert(with_style_of(plain, Some(style)) == with_style_of(cell, Some(style)));
            lemma_styled_cell(p, name, first);
            lemma_given_plain(tag, first);
            lemma_style_head();
            lemma_digits(first as nat);
            law_attribute_overwritten(tag, " s=\""@, decimal(first as nat), decimal(style as nat));
            let k = cell_picture(number, cell);
            let set = tag_with_attribute(tag, " s=\""@, decimal(first as nat))->0;
            crate::tags::lemma_tag_stop(k, 0);
            crate::tags::lemma_tag_stop(p, 0);
            assert(tag_stop(k, 0) == set.len());
            assert(k.skip(set.len() as int) =~= p.skip(tag_stop(p, 0)));
        },
    }
}

// ---- the cells of a row -------------------------------------------------------------------

/// Cells in two parts.
pub proof fn lemma_cells_parts(number: u32, a: Seq<CellPicture>, b: Seq<CellPicture>)
    ensures
        cells_picture(number, a + b) == cells_picture(number, a) + cells_picture(number, b),
    decreases b.len(),
{
    if b.len() == 0 {
        assert(a + b =~= a);
        assert(cells_picture(number, a) + cells_picture(number, b) =~= cells_picture(number, a));
    } else {
        lemma_cells_parts(number, a, b.drop_last());
        assert((a + b).drop_last() =~= a + b.drop_last());
        assert((a + b).last() == b.last());
        assert(cells_picture(number, a + b) =~= cells_picture(number, a) + cells_picture(number, b));
    }
}

/// One cell.
pub proof fn lemma_one_cell(number: u32, cell: CellPicture)
    ensures
        cells_picture(number, seq![cell]) == cell_picture(number, cell),
{
    reveal_with_fuel(cells_picture, 2);
    assert(seq![cell].drop_last() =~= Seq::<CellPicture>::empty());
    assert(cells_picture(number, seq![cell]) =~= cell_picture(number, cell));
}

/// Two cells of a row have different names where their columns differ.
proof fn lemma_other_name(number: u32, a: nat, b: nat)
    requires
        a < u32::MAX,
        b < u32::MAX,
        a != b,
    ensures
        utf8(name_in(number, a)) != utf8(name_in(number, b)),
        name_in(number, a) != name_in(number, b),
{
    lemma_name(a, number);
    lemma_name(b, number);
    assert(name_in(number, a) == cell_name(a, number as nat));
    assert(name_in(number, b) == cell_name(b, number as nat));
}

/// The cells of a row: they make a body, and none has the name of a column that they leave out.
#[verifier::spinoff_prover]
#[verifier::rlimit(60)]
pub proof fn lemma_cells_picture(number: u32, cells: Seq<CellPicture>, column: nat)
    requires
        fit(cells),
        column < u32::MAX,
    ensures
        ({
            let x = cells_picture(number, cells);
            &&& tidy(x)
            &&& is_body(x + utf8("</row>"@))
            &&& leaves_out(cells, column) ==> tag_of(x, "<c "@, name_in(number, column), 0) is None
            &&& (forall|i: int| 0 <= i < cells.len() ==> (#[trigger] cells[i]).column < column)
                ==> later_cell(x, (column + 1) as u32, 0) == Some(None::<int>)
        }),
    decreases cells.len(),
{
    let x = cells_picture(number, cells);
    let close = utf8("</row>"@);
    lemma_sheet_ends();
    lemma_opens();
    lemma_bare_body();
    if cells.len() == 0 {
        assert(x + close =~= close);
        lemma_find_from(x, utf8("<c "@), 0);
    } else {
        let front = cells.drop_last();
        let cell = cells.last();
        let f = cells_picture(number, front);
        let k = cell_picture(number, cell);
        assert(cells[cells.len() - 1].column < u32::MAX - 1);
        assert forall|i: int| 0 <= i < front.len() implies (#[trigger] front[i]).column < u32::MAX
            - 1 by {
            assert(front[i] == cells[i]);
        }
        lemma_cells_picture(number, front, column);
        lemma_cell_picture(number, cell, 0);
        lemma_name(cell.column, number);
        assert(name_in(number, cell.column) == cell_name(cell.column, number as nat));
        lemma_tidy_join(f, k);
        crate::laws::shapes::lemma_tag_tidy(close);
        lemma_body_insert(f, k, close);
        if leaves_out(cells, column) {
            assert(leaves_out(front, column)) by {
                assert forall|i: int| 0 <= i < front.len() implies (#[trigger] front[i]).column
                    != column by {
                    assert(front[i] == cells[i]);
                }
            }
            assert(cells[cells.len() - 1].column != column);
            lemma_other_name(number, cell.column, column);
            lemma_other_element(
                k,
                "<c "@,
                "</c>"@,
                name_in(number, cell.column),
                name_in(number, column),
            );
            lemma_tag_of_pieces(f, k, "<c "@, name_in(number, column), 0);
        }
        if forall|i: int| 0 <= i < cells.len() ==> (#[trigger] cells[i]).column < column {
            assert forall|i: int| 0 <= i < front.len() implies (#[trigger] front[i]).column < column by {
                assert(front[i] == cells[i]);
            }
            assert(cells[cells.len() - 1].column < column);
            lemma_later_pieces(f, k, (column + 1) as u32, 0);
            lemma_later_of_cell(k, name_in(number, cell.column), (column + 1) as u32);
        }
    }
}

/// What stands behind a place in a row starts a later cell, or ends the row.
proof fn lemma_right(number: u32, cells: Seq<CellPicture>, column: nat)
    requires
        fit(cells),
        column < u32::MAX,
        cells.len() > 0 ==> cells[0].column > column,
    ensures
        later_cell(cells_picture(number, cells) + utf8("</row>"@), (column + 1) as u32, 0) == (
        if cells.len() > 0 {
            Some(Some(0int))
        } else {
            Some(None)
        }),
{
    let close = utf8("</row>"@);
    lemma_opens();
    if cells.len() == 0 {
        assert(cells_picture(number, cells) + close =~= close);
        crate::laws::shapes::lemma_not_in_tag(close, utf8("<c "@), 0);
    } else {
        let cell = cells[0];
        let rest = cells.skip(1);
        let k = cell_picture(number, cell);
        assert(cells =~= seq![cell] + rest);
        lemma_cells_parts(number, seq![cell], rest);
        lemma_one_cell(number, cell);
        lemma_cell_picture(number, cell, 0);
        lemma_name(cell.column, number);
        assert(name_in(number, cell.column) == cell_name(cell.column, number as nat));
        let r = cells_picture(number, rest);
        assert(cells_picture(number, cells) + close =~= k + (r + close));
        lemma_later_pieces(k, r + close, (column + 1) as u32, 0);
        lemma_later_of_cell(k, name_in(number, cell.column), (column + 1) as u32);
    }
}

/// Setting a cell in the body of a row.
#[verifier::spinoff_prover]
#[verifier::rlimit(60)]
proof fn lemma_body_picture(
    number: u32,
    left: Seq<CellPicture>,
    mid: Seq<CellPicture>,
    right: Seq<CellPicture>,
    column: nat,
    value: Seq<char>,
)
    requires
        fit(left),
        fit(right),
        column < u32::MAX - 1,
        forall|i: int| 0 <= i < left.len() ==> (#[trigger] left[i]).column < column,
        leaves_out(right, column),
        right.len() > 0 ==> right[0].column > column,
        mid.len() == 0 || (mid.len() == 1 && mid[0].column == column),
    ensures
        ({
            let close = utf8("</row>"@);
            let m = cells_picture(number, left + mid + right) + close;
            let new = CellPicture { column, style: None, value: Some(value) };
            &&& is_body(m)
            &&& body_holds(m, name_in(number, column))
            &&& body_with(m, name_in(number, column), value) == Some(
                cells_picture(number, left + seq![new] + right) + close,
            )
        }),
{
    let close = utf8("</row>"@);
    let name = name_in(number, column);
    let col = (column + 1) as u32;
    let new = CellPicture { column, style: None, value: Some(value) };
    let l = cells_picture(number, left);
    let r = cells_picture(number, right) + close;
    let m = cells_picture(number, left + mid + right) + close;
    lemma_sheet_ends();
    lemma_opens();
    lemma_name(column, number);
    assert(name == cell_name(column, number as nat));
    lemma_cells_parts(number, left + mid, right);
    lemma_cells_parts(number, left, mid);
    lemma_cells_parts(number, left + seq![new], right);
    lemma_cells_parts(number, left, seq![new]);
    lemma_one_cell(number, new);
    lemma_written_picture(number, column, value);
    lemma_cells_picture(number, left, column);
    lemma_cells_picture(number, right, column);
    lemma_right(number, right, column);
    lemma_bare_body();
    lemma_tag_of_pieces(cells_picture(number, right), close, "<c "@, name, 0);
    assert(tag_of(r, "<c "@, name, 0) is None);
    assert(leaves_out(left, column));
    let all = left + mid + right;
    assert(fit(all)) by {
        assert forall|i: int| 0 <= i < all.len() implies (#[trigger] all[i]).column < u32::MAX - 1 by {
            if i < left.len() {
                assert(all[i] == left[i]);
            } else if i >= left.len() + mid.len() {
                assert(all[i] == right[i - left.len() - mid.len()]);
            } else {
                assert(all[i] == mid[i - left.len()]);
            }
        }
    }
    lemma_cells_picture(number, all, column);
    if mid.len() == 0 {
        assert(left + mid =~= left);
        assert(m =~= l + r);
        lemma_tag_of_pieces(l, r, "<c "@, name, 0);
    } else {
        assert(mid =~= seq![mid[0]]);
        let k = cell_picture(number, mid[0]);
        lemma_one_cell(number, mid[0]);
        lemma_cell_picture(number, mid[0], 0);
        assert(m =~= l + k + r);
        lemma_in_body(l, k, r, name);
    }
    assert(body_without(m, name) == l + r);
    lemma_later_pieces(l, r, col, 0);
    assert(body_slot(l + r, col) == Some(l.len() as int));
    let cell = written_cell(name, value);
    assert(insert(l + r, l.len() as int, cell) =~= l + cell + r);
    assert(l + cell + r =~= cells_picture(number, left + seq![new] + right) + close);
}

// ---- rows ---------------------------------------------------------------------------------

/// Rows in two parts.
pub proof fn lemma_rows_parts(a: Seq<RowPicture>, b: Seq<RowPicture>)
    ensures
        rows_picture(a + b) == rows_picture(a) + rows_picture(b),
    decreases b.len(),
{
    if b.len() == 0 {
        assert(a + b =~= a);
        assert(rows_picture(a) + rows_picture(b) =~= rows_picture(a));
    } else {
        lemma_rows_parts(a, b.drop_last());
        assert((a + b).drop_last() =~= a + b.drop_last());
        assert((a + b).last() == b.last());
        assert(rows_picture(a + b) =~= rows_picture(a) + rows_picture(b));
    }
}

/// One row.
pub proof fn lemma_one_row(row: RowPicture)
    ensures
        rows_picture(seq![row]) == row_picture(row),
        row_picture(row) == head_picture(row.number, row.style) + (cells_picture(row.number, row.cells) + utf8(
            "</row>"@,
        )),
{
    reveal_with_fuel(rows_picture, 2);
    assert(seq![row].drop_last() =~= Seq::<RowPicture>::empty());
    assert(rows_picture(seq![row]) =~= row_picture(row));
    assert(row_picture(row) =~= head_picture(row.number, row.style) + (cells_picture(row.number, row.cells) + utf8(
        "</row>"@,
    )));
}

/// The tag of a row without a style.
pub proof fn lemma_plain_head(number: u32)
    ensures
        head_picture(number, None) == new_head(number),
{
    reveal_strlit("");
    reveal_strlit("\"");
    reveal_strlit(">");
    reveal_strlit("\">");
    assert("<row r=\""@ + decimal(number as nat) + "\""@ + ""@ + ">"@ =~= "<row r=\""@ + decimal(
        number as nat,
    ) + "\">"@);
}

/// The bytes of the tag of a row with a style.
pub proof fn lemma_marked_bytes(number: u32, style: u32)
    ensures
        ({
            let d = utf8(decimal(number as nat));
            let e = utf8(decimal(style as nat));
            &&& head_picture(number, Some(style)) == seq![
                60u8,
                114u8,
                111u8,
                119u8,
                32u8,
                114u8,
                61u8,
                34u8,
            ] + d + seq![34u8, 32u8, 115u8, 61u8, 34u8] + e + seq![34u8] + utf8(
                " customFormat=\""@,
            ) + seq![49u8, 34u8, 62u8]
            &&& utf8(" customFormat=\""@) == seq![
                32u8,
                99u8,
                117u8,
                115u8,
                116u8,
                111u8,
                109u8,
                70u8,
                111u8,
                114u8,
                109u8,
                97u8,
                116u8,
                61u8,
                34u8,
            ]
        }),
{
    let x = decimal(number as nat);
    let y = decimal(style as nat);
    let c = " customFormat=\""@;
    assert(utf8(c) =~= seq![
        32u8,
        99u8,
        117u8,
        115u8,
        116u8,
        111u8,
        109u8,
        70u8,
        111u8,
        114u8,
        109u8,
        97u8,
        116u8,
        61u8,
        34u8,
    ]) by {
        reveal_strlit(" customFormat=\"");
        lemma_utf8_ascii(" customFormat=\""@);
    }
    let f = seq!['<', 'r', 'o', 'w', ' ', 'r', '=', '"'];
    let g = seq!['"', ' ', 's', '=', '"'];
    let q = seq!['"'];
    let z = seq!['1', '"', '>'];
    assert("<row r=\""@ + x + "\""@ + mark_text(Some(style)) + ">"@ =~= f + x + g + y + q + c + z) by {
        reveal_strlit("<row r=\"");
        reveal_strlit("\"");
        reveal_strlit(" s=\"");
        reveal_strlit("\" customFormat=\"1\"");
        reveal_strlit(" customFormat=\"");
        reveal_strlit(">");
    }
    lemma_utf8_ascii(f);
    lemma_utf8_ascii(g);
    lemma_utf8_ascii(q);
    lemma_utf8_ascii(z);
    assert(utf8(f) =~= seq![60u8, 114u8, 111u8, 119u8, 32u8, 114u8, 61u8, 34u8]);
    assert(utf8(g) =~= seq![34u8, 32u8, 115u8, 61u8, 34u8]);
    assert(utf8(q) =~= seq![34u8]);
    assert(utf8(z) =~= seq![49u8, 34u8, 62u8]);
    lemma_utf8_concat(f, x);
    lemma_utf8_concat(f + x, g);
    lemma_utf8_concat(f + x + g, y);
    lemma_utf8_concat(f + x + g + y, q);
    lemma_utf8_concat(f + x + g + y + q, c);
    lemma_utf8_concat(f + x + g + y + q + c, z);
}

/// The tag of a row is one.
#[verifier::spinoff_prover]
#[verifier::rlimit(60)]
pub proof fn lemma_head_picture(number: u32, style: Option<u32>)
    ensures
        is_head(head_picture(number, style)),
        refers_to(head_picture(number, style), decimal(number as nat)),
{
    match style {
        None => {
            lemma_plain_head(number);
            lemma_new_head(number);
        },
        Some(s) => {
            let digits = decimal(number as nat);
            let d = utf8(digits);
            let e = utf8(decimal(s as nat));
            let n = d.len() as int;
            let t = head_picture(number, style);
            lemma_marked_bytes(number, s);
            lemma_digits(number as nat);
            lemma_digits(s as nat);
            lemma_opens();
            lemma_reference();
            assert forall|i: int| 8 <= i < 8 + n implies #[trigger] t[i] == d[i - 8] by {}
            assert forall|i: int| 13 + n <= i < 13 + n + e.len() implies #[trigger] t[i] == e[i - 13
                - n] by {}
            assert forall|i: int| 0 < i < t.len() - 1 implies #[trigger] t[i] != 60 && t[i] != 62 by {
                if 8 <= i < 8 + n {
                    assert(t[i] == d[i - 8]);
                } else if 13 + n <= i < 13 + n + e.len() {
                    assert(t[i] == e[i - 13 - n]);
                }
            }
            assert(t[0] == 60 && t.last() == 62);
            crate::laws::shapes::lemma_tag_tidy(t);
            assert(t.subrange(0, 5) =~= utf8("<row "@));
            assert(t.subrange(4, 8) =~= utf8(" r=\""@));
            assert(t.subrange(8, 8 + n) =~= d);
            assert(t[8 + n] == 34);
            assert(t[t.len() - 2] == 34);
            lemma_refers(t, digits, 4);
        },
    }
}

/// The cells of all rows can be numbered.
pub open spec fn all_fit(rows: Seq<RowPicture>) -> bool {
    forall|i: int| 0 <= i < rows.len() ==> fit((#[trigger] rows[i]).cells)
}

/// A row is one.
proof fn lemma_is_row(row: RowPicture)
    requires
        fit(row.cells),
    ensures
        is_row(row_picture(row), row.number),
        tidy(row_picture(row)),
{
    lemma_one_row(row);
    lemma_cells_picture(row.number, row.cells, 0);
    lemma_head_picture(row.number, row.style);
    lemma_row_made(
        head_picture(row.number, row.style),
        cells_picture(row.number, row.cells) + utf8("</row>"@),
        row.number,
    );
}

/// Rows: they are tidy, hold no end of the data, and none has a number that they leave out.
#[verifier::spinoff_prover]
#[verifier::rlimit(60)]
proof fn lemma_rows_picture(rows: Seq<RowPicture>, number: u32)
    requires
        all_fit(rows),
    ensures
        ({
            let x = rows_picture(rows);
            &&& tidy(x)
            &&& find(x, utf8("</sheetData>"@)) is None
            &&& (forall|i: int| 0 <= i < rows.len() ==> (#[trigger] rows[i]).number != number)
                ==> tag_of(x, "<row "@, decimal(number as nat), 0) is None
            &&& (forall|i: int| 0 <= i < rows.len() ==> (#[trigger] rows[i]).number <= number)
                ==> row_slot(x, number, 0) is None
        }),
    decreases rows.len(),
{
    let x = rows_picture(rows);
    let data = utf8("</sheetData>"@);
    lemma_sheet_ends();
    lemma_opens();
    if rows.len() == 0 {
        lemma_find_from(x, data, 0);
        lemma_find_from(x, utf8("<row "@), 0);
    } else {
        let front = rows.drop_last();
        let row = rows.last();
        let f = rows_picture(front);
        let k = row_picture(row);
        assert(rows[rows.len() - 1] == row);
        assert forall|i: int| 0 <= i < front.len() implies fit((#[trigger] front[i]).cells) by {
            assert(front[i] == rows[i]);
        }
        lemma_rows_picture(front, number);
        lemma_is_row(row);
        lemma_tidy_join(f, k);
        lemma_find_pieces(f, k, data, 0);
        if forall|i: int| 0 <= i < rows.len() ==> (#[trigger] rows[i]).number != number {
            assert forall|i: int| 0 <= i < front.len() implies (#[trigger] front[i]).number
                != number by {
                assert(front[i] == rows[i]);
            }
            assert(rows[rows.len() - 1].number != number);
            lemma_other_digits(row.number, number);
            lemma_other_element(
                k,
                "<row "@,
                "</row>"@,
                decimal(row.number as nat),
                decimal(number as nat),
            );
            lemma_tag_of_pieces(f, k, "<row "@, decimal(number as nat), 0);
        }
        if forall|i: int| 0 <= i < rows.len() ==> (#[trigger] rows[i]).number <= number {
            assert forall|i: int| 0 <= i < front.len() implies (#[trigger] front[i]).number
                <= number by {
                assert(front[i] == rows[i]);
            }
            assert(rows[rows.len() - 1].number <= number);
            crate::laws::rows::lemma_slot_pieces(f, k, number, 0);
            crate::laws::rows::lemma_slot_of_row(k, row.number, number);
        }
    }
}

/// What stands in front of a row of a sheet, and what stands behind it.
#[verifier::spinoff_prover]
#[verifier::rlimit(60)]
pub proof fn lemma_around(
    head: Seq<u8>,
    above: Seq<RowPicture>,
    below: Seq<RowPicture>,
    tail: Seq<u8>,
    number: u32,
)
    requires
        is_frame(head, tail),
        all_fit(above),
        all_fit(below),
        forall|i: int| 0 <= i < above.len() ==> (#[trigger] above[i]).number < number,
        forall|i: int| 0 <= i < below.len() ==> (#[trigger] below[i]).number > number,
    ensures
        ({
            let a = head + rows_picture(above);
            let b = rows_picture(below) + utf8("</sheetData>"@) + tail;
            &&& tidy(a)
            &&& tidy(b)
            &&& tag_of(a, "<row "@, decimal(number as nat), 0) is None
            &&& row_found(a + b, number) is None
            &&& row_place(a + b, number) == Some(a.len() as int)
        }),
{
    let data = utf8("</sheetData>"@);
    let digits = decimal(number as nat);
    let x = rows_picture(above);
    let y = rows_picture(below);
    let a = head + x;
    let end = data + tail;
    let b = y + data + tail;
    lemma_sheet_ends();
    lemma_opens();
    lemma_rows_picture(above, number);
    lemma_rows_picture(below, number);
    lemma_tidy_join(head, x);
    lemma_data_tidy();
    lemma_tidy_join(data, tail);
    lemma_tidy_join(y, end);
    assert(b =~= y + end);
    lemma_none_in(head, number);
    lemma_none_in(tail, number);
    lemma_none_in(data, number);
    lemma_tag_of_pieces(head, x, "<row "@, digits, 0);
    lemma_tag_of_pieces(data, tail, "<row "@, digits, 0);
    lemma_tag_of_pieces(y, end, "<row "@, digits, 0);
    lemma_tag_of_pieces(a, b, "<row "@, digits, 0);
    crate::laws::rows::lemma_slot_pieces(head, x, number, 0);
    crate::laws::rows::lemma_slot_pieces(a, b, number, 0);
    crate::laws::rows::lemma_slot_pieces(y, end, number, 0);
    crate::laws::rows::lemma_slot_pieces(data, tail, number, 0);
    if below.len() > 0 {
        let row = below[0];
        let rest = below.skip(1);
        assert(below =~= seq![row] + rest);
        lemma_rows_parts(seq![row], rest);
        lemma_one_row(row);
        lemma_is_row(row);
        crate::laws::rows::lemma_slot_of_row(row_picture(row), row.number, number);
        crate::laws::rows::lemma_slot_pieces(row_picture(row), rows_picture(rest), number, 0);
        assert(row_slot(y, number, 0) == Some(0int));
    } else {
        assert(y =~= Seq::<u8>::empty());
        assert(row_slot(y, number, 0) is None);
        assert(b =~= end);
        lemma_rfind_pieces(a, b, data);
        lemma_rfind_pieces(data, tail, data);
        lemma_rfind(tail, data);
        lemma_find_from(tail, data, 0);
        lemma_rfind_of_itself(data);
    }
}

/// The end of the data is tidy.
pub proof fn lemma_data_tidy()
    ensures
        tidy(utf8("</sheetData>"@)),
        find(utf8("</sheetData>"@), utf8("<row "@)) is None,
{
    reveal_strlit("</sheetData>");
    lemma_ascii_tag("</sheetData>"@);
    lemma_opens();
    lemma_sheet_ends();
    lemma_not_in_tag(utf8("</sheetData>"@), utf8("<row "@), 0);
}

/// The last place of bytes in themselves.
pub proof fn lemma_rfind_of_itself(x: Seq<u8>)
    ensures
        rfind(x, x) == Some(0int),
{
    assert(x.subrange(0, x.len() as int) =~= x);
    lemma_rfind(x, x);
    assert(occurs_at(x, x, 0));
}

/// Bytes without a row have none.
proof fn lemma_none_in(x: Seq<u8>, number: u32)
    requires
        find(x, utf8("<row "@)) is None,
    ensures
        tag_of(x, "<row "@, decimal(number as nat), 0) is None,
        row_slot(x, number, 0) is None,
{
}

// ---- what set_cell makes of a sheet -------------------------------------------------------

/// Setting a cell of a row that is there: the cell stands behind the cells of the columns in front of
/// its own and in front of the others, in place of the one that was there, with its value and without
/// a style. Nothing else changes.
#[verifier::spinoff_prover]
#[verifier::rlimit(60)]
pub proof fn law_cell_set_in_row(
    head: Seq<u8>,
    above: Seq<RowPicture>,
    number: u32,
    style: Option<u32>,
    left: Seq<CellPicture>,
    mid: Seq<CellPicture>,
    right: Seq<CellPicture>,
    below: Seq<RowPicture>,
    tail: Seq<u8>,
    last_row: u32,
    column: nat,
    value: Seq<char>,
)
    requires
        is_frame(head, tail),
        all_fit(above),
        all_fit(below),
        forall|i: int| 0 <= i < above.len() ==> (#[trigger] above[i]).number < number,
        forall|i: int| 0 <= i < below.len() ==> (#[trigger] below[i]).number > number,
        fit(left),
        fit(right),
        column < u32::MAX - 1,
        forall|i: int| 0 <= i < left.len() ==> (#[trigger] left[i]).column < column,
        leaves_out(right, column),
        right.len() > 0 ==> right[0].column > column,
        mid.len() == 0 || (mid.len() == 1 && mid[0].column == column),
    ensures
        ({
            let row = RowPicture { number, style, cells: left + mid + right };
            let new = CellPicture { column, style: None, value: Some(value) };
            let set = RowPicture { number, style, cells: left + seq![new] + right };
            cell_set(
                SheetView { xml: sheet_picture(head, above + seq![row] + below, tail), last_row },
                name_in(number, column),
                value,
            ) == Some(
                SheetOutcome {
                    sheet: SheetView {
                        xml: sheet_picture(head, above + seq![set] + below, tail),
                        last_row: if number > last_row {
                            number
                        } else {
                            last_row
                        },
                    },
                    result: Ok(()),
                },
            )
        }),
{
    let row = RowPicture { number, style, cells: left + mid + right };
    let new = CellPicture { column, style: None, value: Some(value) };
    let set = RowPicture { number, style, cells: left + seq![new] + right };
    let name = name_in(number, column);
    let a = head + rows_picture(above);
    let b = rows_picture(below) + utf8("</sheetData>"@) + tail;
    let t = head_picture(number, style);
    let m = cells_picture(number, row.cells) + utf8("</row>"@);
    let sheet = SheetView { xml: sheet_picture(head, above + seq![row] + below, tail), last_row };
    lemma_around(head, above, below, tail, number);
    lemma_body_picture(number, left, mid, right, column, value);
    lemma_head_picture(number, style);
    lemma_row_there(a, t, m, b, number);
    lemma_row_made(t, m, number);
    lemma_split_sheet(head, above, row, below, tail);
    lemma_split_sheet(head, above, set, below, tail);
    lemma_name(column, number);
    assert(name == cell_name(column, number as nat));
    lemma_set_between(sheet, number, a, t, t + m, b, name, value);
}

/// Pieces around one.
proof fn lemma_regroup(
    head: Seq<u8>,
    x: Seq<u8>,
    k: Seq<u8>,
    y: Seq<u8>,
    end: Seq<u8>,
    tail: Seq<u8>,
)
    ensures
        head + (x + k + y) + end + tail == head + x + k + (y + end + tail),
{
    assert(head + (x + k + y) + end + tail =~= head + x + k + (y + end + tail));
}

/// A sheet around one of its rows.
pub proof fn lemma_split_sheet(
    head: Seq<u8>,
    above: Seq<RowPicture>,
    row: RowPicture,
    below: Seq<RowPicture>,
    tail: Seq<u8>,
)
    ensures
        ({
            let a = head + rows_picture(above);
            let b = rows_picture(below) + utf8("</sheetData>"@) + tail;
            let m = cells_picture(row.number, row.cells) + utf8("</row>"@);
            &&& sheet_picture(head, above + seq![row] + below, tail) == a + (head_picture(
                row.number,
                row.style,
            ) + m) + b
            &&& sheet_picture(head, above + below, tail) == a + b
        }),
{
    lemma_rows_parts(above + seq![row], below);
    lemma_rows_parts(above, seq![row]);
    lemma_rows_parts(above, below);
    lemma_one_row(row);
    let x = rows_picture(above);
    let y = rows_picture(below);
    let k = row_picture(row);
    let end = utf8("</sheetData>"@);
    let none = Seq::<u8>::empty();
    lemma_regroup(head, x, k, y, end, tail);
    lemma_regroup(head, x, none, y, end, tail);
    assert(x + none =~= x);
    assert(head + x + none =~= head + x);
}

/// Setting a cell of a row that is not there makes the row, with that cell alone, between the rows with
/// smaller numbers and those with larger ones. Nothing else changes.
#[verifier::spinoff_prover]
#[verifier::rlimit(60)]
pub proof fn law_cell_set_in_new_row(
    head: Seq<u8>,
    above: Seq<RowPicture>,
    number: u32,
    below: Seq<RowPicture>,
    tail: Seq<u8>,
    last_row: u32,
    column: nat,
    value: Seq<char>,
)
    requires
        is_frame(head, tail),
        all_fit(above),
        all_fit(below),
        forall|i: int| 0 <= i < above.len() ==> (#[trigger] above[i]).number < number,
        forall|i: int| 0 <= i < below.len() ==> (#[trigger] below[i]).number > number,
        column < u32::MAX - 1,
    ensures
        ({
            let new = CellPicture { column, style: None, value: Some(value) };
            let row = RowPicture { number, style: None, cells: seq![new] };
            cell_set(
                SheetView { xml: sheet_picture(head, above + below, tail), last_row },
                name_in(number, column),
                value,
            ) == Some(
                SheetOutcome {
                    sheet: SheetView {
                        xml: sheet_picture(head, above + seq![row] + below, tail),
                        last_row: if number > last_row {
                            number
                        } else {
                            last_row
                        },
                    },
                    result: Ok(()),
                },
            )
        }),
{
    let new = CellPicture { column, style: None, value: Some(value) };
    let row = RowPicture { number, style: None, cells: seq![new] };
    let name = name_in(number, column);
    let a = head + rows_picture(above);
    let b = rows_picture(below) + utf8("</sheetData>"@) + tail;
    let cell = written_cell(name, value);
    lemma_around(head, above, below, tail, number);
    lemma_split_sheet(head, above, row, below, tail);
    lemma_one_cell(number, new);
    lemma_written_picture(number, column, value);
    lemma_name(column, number);
    assert(name == cell_name(column, number as nat));
    lemma_plain_head(number);
    lemma_written_row(number, cell);
    lemma_inserted(a, b, new_row(number, cell));
}

} // verus!
