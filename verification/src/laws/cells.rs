//! Setting cells.

use vstd::prelude::*;
use crate::bytes::{
    find, find_from, insert, lemma_find_from, lemma_find_from_is, lemma_rfind, occurs_at, replace,
};
use crate::coord::is_cell_name;
use crate::laws::bodies::{
    body_holds, body_places, body_slot, body_with, body_without, is_body, is_head,
    lemma_cell_pieces, lemma_cell_set, lemma_head_tag, lemma_row_body,
};
use crate::laws::commuting::lemma_cells_commute;
use crate::laws::pieces::lemma_byte_at;
use crate::laws::shapes::{lemma_not_in_tag, lemma_reference, lemma_refers, lemma_sheet_ends};
use crate::laws::tidy::{
    is_element, lemma_element_end, lemma_element_found, lemma_element_pieces, lemma_find_pieces,
    lemma_occurs_back, lemma_tag_in_front, lemma_tag_of_pieces, lemma_tidy_join, lemma_tidy_split,
    lemma_tidy_tag, tidy,
};
use crate::sheet::{
    cell_set, coord_row, leading_column, lemma_opens, new_row, raised, row_found, row_opened,
    row_place, row_slot, tag_number, written_cell, SheetView,
};
use crate::tags::{element_stop, is_closed, refers_to, tag_at, tag_of, tag_stop};
use crate::text::{
    decimal, is_digit, lemma_decimal_digits, lemma_decimal_reads_back, lemma_utf8_ascii,
    lemma_utf8_concat, text_of, u32_of_bytes, utf8,
};

verus! {

// ---- rows ---------------------------------------------------------------------------------

/// A row with the number `number` that cells can go into.
pub open spec fn is_row(row: Seq<u8>, number: u32) -> bool {
    &&& is_element(row, "<row "@, "</row>"@, decimal(number as nat))
    &&& !is_closed(tag_at(row, 0))
    &&& find(row, utf8("</sheetData>"@)) is None
}

/// The row `number` of a document, opened.
pub open spec fn row_text(xml: Seq<u8>, number: u32) -> Option<Seq<u8>> {
    match row_found(xml, number) {
        Some(Ok((start, stop))) => Some(row_opened(xml.subrange(start, stop))),
        _ => None,
    }
}

/// What stands behind the tag of the row `number`, and the end of a row where there is no such row.
pub open spec fn body_of(xml: Seq<u8>, number: u32) -> Seq<u8> {
    match row_text(xml, number) {
        Some(row) => row.skip(tag_stop(row, 0)),
        None => utf8("</row>"@),
    }
}

/// A tidy document whose row `number`, where it has one, is a row that cells can go into.
pub open spec fn keeps_row(xml: Seq<u8>, number: u32) -> bool {
    &&& tidy(xml)
    &&& !(row_found(xml, number) matches Some(Err(_)))
    &&& row_text(xml, number) matches Some(row) ==> is_row(row, number)
}

/// The tag and the body of a row.
#[verifier::spinoff_prover]
#[verifier::rlimit(60)]
pub proof fn lemma_row_parts(row: Seq<u8>, number: u32)
    requires
        is_row(row, number),
    ensures
        ({
            let t = row.take(tag_stop(row, 0));
            let m = row.skip(tag_stop(row, 0));
            &&& row == t + m
            &&& is_head(t)
            &&& refers_to(t, decimal(number as nat))
            &&& is_body(m)
        }),
{
    let stop = tag_stop(row, 0);
    let t = row.take(stop);
    let m = row.skip(stop);
    let close = utf8("</row>"@);
    lemma_sheet_ends();
    lemma_opens();
    lemma_element_end(row, "<row "@, "</row>"@, decimal(number as nat));
    lemma_tidy_tag(row, 0);
    assert(row =~= t + m);
    assert(t.last() == row[stop - 1]);
    lemma_tidy_split(t, m);
    assert(t =~= tag_at(row, 0));
    lemma_tag_in_front(t, m, 0);
    if stop < 5 {
        lemma_byte_at(row, utf8("<row "@), 0, stop - 1);
    }
    assert(t.subrange(0, 5) =~= row.subrange(0, 5));
    crate::laws::tidy::lemma_find_back(t, m, close, 0);
    lemma_find_pieces(t, m, utf8("<row "@), 1);
    lemma_find_pieces(t, m, utf8("</sheetData>"@), 0);
}

/// A tag and a body make a row.
pub proof fn lemma_row_made(t: Seq<u8>, m: Seq<u8>, number: u32)
    requires
        is_head(t),
        refers_to(t, decimal(number as nat)),
        is_body(m),
    ensures
        is_row(t + m, number),
        tag_stop(t + m, 0) == t.len(),
        (t + m).skip(t.len() as int) == m,
        row_opened(t + m) == t + m,
{
    let row = t + m;
    let close = utf8("</row>"@);
    lemma_sheet_ends();
    lemma_opens();
    lemma_head_tag(t, m);
    lemma_tidy_join(t, m);
    lemma_byte_at(t, utf8("<row "@), 0, 4);
    assert(row.subrange(0, 5) =~= t.subrange(0, 5));
    crate::laws::tidy::lemma_find_back(t, m, close, 0);
    lemma_find_pieces(t, m, utf8("<row "@), 1);
    lemma_not_in_tag(t, utf8("<row "@), 1);
    lemma_find_pieces(t, m, utf8("</sheetData>"@), 0);
    lemma_byte_at(t, utf8("<row "@), 0, 1);
    lemma_byte_at(t, utf8("<row "@), 0, 2);
    lemma_not_in_tag(t, utf8("</sheetData>"@), 0);
    lemma_find_from(m, close, 0);
    lemma_byte_at(m, close, m.len() - 6, 4);
    assert(row[row.len() - 2] == m[m.len() - 2]);
}

/// The tag of a new row.
pub open spec fn new_head(number: u32) -> Seq<u8> {
    utf8("<row r=\""@ + decimal(number as nat) + "\">"@)
}

/// The digits of a number in bytes.
pub proof fn lemma_digits(n: nat)
    ensures
        utf8(decimal(n)).len() == decimal(n).len(),
        utf8(decimal(n)).len() > 0,
        forall|i: int| 0 <= i < utf8(decimal(n)).len() ==> 48 <= #[trigger] utf8(decimal(n))[i] <= 57,
        text_of(utf8(decimal(n))) == Some(decimal(n)),
        n <= u32::MAX ==> u32_of_bytes(utf8(decimal(n))) == Some(n as u32),
{
    let digits = decimal(n);
    lemma_decimal_digits(n);
    lemma_decimal_reads_back(n);
    assert(vstd::utf8::is_ascii_chars(digits)) by {
        assert forall|i: int| 0 <= i < digits.len() implies '\0' <= #[trigger] digits[i]
            <= '\u{7f}' by {
            assert(is_digit(digits[i]));
        }
    }
    lemma_utf8_ascii(digits);
    assert forall|i: int| 0 <= i < utf8(digits).len() implies 48 <= #[trigger] utf8(digits)[i]
        <= 57 by {
        assert(utf8(digits)[i] == digits[i] as u8);
        assert(is_digit(digits[i]));
    }
    vstd::utf8::encode_utf8_valid_utf8(digits);
    vstd::utf8::encode_utf8_decode_utf8(digits);
}

/// The number of a tag that refers to a row.
pub proof fn lemma_number_of(tag: Seq<u8>, number: u32)
    requires
        refers_to(tag, decimal(number as nat)),
    ensures
        tag_number(tag) == Some(number),
{
    lemma_digits(number as nat);
}

/// Different numbers have different digits.
pub proof fn lemma_other_digits(a: u32, b: u32)
    requires
        a != b,
    ensures
        utf8(decimal(a as nat)) != utf8(decimal(b as nat)),
{
    lemma_digits(a as nat);
    lemma_digits(b as nat);
}

/// The tag of a new row is one.
pub proof fn lemma_new_head(number: u32)
    ensures
        is_head(new_head(number)),
        refers_to(new_head(number), decimal(number as nat)),
{
    let digits = decimal(number as nat);
    let d = utf8(digits);
    let n = d.len() as int;
    reveal_strlit("<row r=\"");
    reveal_strlit("\">");
    lemma_utf8_ascii("<row r=\""@);
    lemma_utf8_ascii("\">"@);
    lemma_utf8_concat("<row r=\""@, digits);
    lemma_utf8_concat("<row r=\""@ + digits, "\">"@);
    lemma_digits(number as nat);
    lemma_opens();
    lemma_reference();
    let front = utf8("<row r=\""@);
    let back = utf8("\">"@);
    let t = new_head(number);
    assert(t == front + d + back);
    assert(front =~= seq![60u8, 114u8, 111u8, 119u8, 32u8, 114u8, 61u8, 34u8]);
    assert(back =~= seq![34u8, 62u8]);
    assert forall|i: int| 8 <= i < 8 + n implies #[trigger] t[i] == d[i - 8] by {}
    assert(t[8 + n] == 34 && t[9 + n] == 62);
    assert forall|i: int| 0 <= i < 8 implies #[trigger] t[i] == front[i] by {}
    crate::laws::shapes::lemma_tag_tidy(t);
    assert(t.subrange(0, 5) =~= utf8("<row "@));
    assert(t.subrange(4, 8) =~= utf8(" r=\""@));
    assert(t.subrange(8, 8 + n) =~= d);
    lemma_refers(t, digits, 4);
}

/// The end of a row is the body of a row without cells.
pub proof fn lemma_bare_body()
    ensures
        is_body(utf8("</row>"@)),
        forall|coord: Seq<char>| #[trigger] tag_of(utf8("</row>"@), "<c "@, coord, 0) is None,
        forall|column: u32| #[trigger] body_slot(utf8("</row>"@), column) == Some(0int),
{
    let m = utf8("</row>"@);
    lemma_sheet_ends();
    lemma_opens();
    crate::laws::shapes::lemma_tag_tidy(m);
    assert(m.subrange(0, 6) =~= m);
    lemma_find_from_is(m, m, 0, 0);
    lemma_not_in_tag(m, utf8("<row "@), 0);
    lemma_not_in_tag(m, utf8("</sheetData>"@), 0);
    lemma_not_in_tag(m, utf8("<c "@), 0);
}

/// A row that takes the place of part of a document is found there.
pub proof fn lemma_row_there(a: Seq<u8>, t: Seq<u8>, m: Seq<u8>, b: Seq<u8>, number: u32)
    requires
        tidy(a),
        tidy(b),
        tag_of(a, "<row "@, decimal(number as nat), 0) is None,
        is_head(t),
        refers_to(t, decimal(number as nat)),
        is_body(m),
    ensures
        ({
            let xml = a + (t + m) + b;
            &&& row_found(xml, number) == Some(
                Ok::<(int, int), crate::error::ErrorView>(
                    (a.len() as int, (a.len() + (t + m).len()) as int),
                ),
            )
            &&& xml.subrange(a.len() as int, (a.len() + (t + m).len()) as int) == t + m
            &&& row_text(xml, number) == Some(t + m)
            &&& body_of(xml, number) == m
            &&& keeps_row(xml, number)
            &&& xml.take(a.len() as int) == a
            &&& xml.skip((a.len() + (t + m).len()) as int) == b
        }),
{
    let row = t + m;
    let xml = a + row + b;
    lemma_sheet_ends();
    lemma_row_made(t, m, number);
    lemma_element_found(a, row, b, "<row "@, "</row>"@, decimal(number as nat), 0);
    lemma_tidy_join(a, row);
    lemma_tidy_join(a + row, b);
    assert(xml.take(a.len() as int) =~= a);
    assert(xml.skip((a.len() + row.len()) as int) =~= b);
}

/// A row or the end of the data starts at `at`.
pub open spec fn starts_next(xml: Seq<u8>, at: int) -> bool {
    occurs_at(xml, utf8("<row "@), at) || occurs_at(xml, utf8("</sheetData>"@), at)
}

/// The pieces of a document around the row `number`, or around the place where it goes.
#[verifier::spinoff_prover]
#[verifier::rlimit(60)]
pub proof fn lemma_around_row(xml: Seq<u8>, number: u32) -> (pieces: (
    Seq<u8>,
    Seq<u8>,
    Seq<u8>,
    Seq<u8>,
))
    requires
        keeps_row(xml, number),
        row_found(xml, number) is None ==> row_place(xml, number) is Some,
    ensures
        ({
            let (a, t, r, b) = pieces;
            &&& tidy(a)
            &&& tidy(b)
            &&& xml == a + r + b
            &&& tag_of(a, "<row "@, decimal(number as nat), 0) is None
            &&& is_head(t)
            &&& refers_to(t, decimal(number as nat))
            &&& is_body(body_of(xml, number))
            &&& match row_found(xml, number) {
                Some(found) => found == Ok::<(int, int), crate::error::ErrorView>(
                    (a.len() as int, (a.len() + r.len()) as int),
                ) && row_opened(r) == t + body_of(xml, number) && is_element(
                    r,
                    "<row "@,
                    "</row>"@,
                    decimal(number as nat),
                ) && find(r, utf8("</sheetData>"@)) is None,
                None => r.len() == 0 && row_place(xml, number) == Some(a.len() as int) && t
                    == new_head(number) && starts_next(b, 0),
            }
        }),
{
    lemma_sheet_ends();
    lemma_opens();
    let digits = decimal(number as nat);
    match row_found(xml, number) {
        Some(Ok((s, e))) => {
            lemma_element_pieces(xml, "<row "@, "</row>"@, digits, 0, s, e);
            let r = xml.subrange(s, e);
            let row = row_opened(r);
            lemma_row_parts(row, number);
            lemma_simple_row(r, number);
            (xml.take(s), row.take(tag_stop(row, 0)), r, xml.skip(e))
        },
        _ => {
            let at = row_place(xml, number)->0;
            lemma_place_byte(xml, number);
            let a = xml.take(at);
            let b = xml.skip(at);
            assert(xml =~= a + b);
            assert(b[0] == 60);
            lemma_tidy_split(a, b);
            lemma_tag_of_pieces(a, b, "<row "@, digits, 0);
            lemma_occurs_back(a, b, utf8("<row "@), 0);
            lemma_occurs_back(a, b, utf8("</sheetData>"@), 0);
            lemma_new_head(number);
            lemma_bare_body();
            let none = Seq::<u8>::empty();
            assert(xml =~= a + none + b);
            (a, new_head(number), none, b)
        },
    }
}

/// A row that closes itself or not holds no other row.
proof fn lemma_simple_row(r: Seq<u8>, number: u32)
    requires
        tidy(r),
        occurs_at(r, utf8("<row "@), 0),
        refers_to(tag_at(r, 0), decimal(number as nat)),
        element_stop(r, 0, "</row>"@) == Some(r.len() as int),
        is_row(row_opened(r), number),
    ensures
        is_element(r, "<row "@, "</row>"@, decimal(number as nat)),
        find(r, utf8("</sheetData>"@)) is None,
{
    lemma_sheet_ends();
    lemma_opens();
    lemma_byte_at(r, utf8("<row "@), 0, 0);
    lemma_byte_at(r, utf8("<row "@), 0, 1);
    lemma_byte_at(r, utf8("<row "@), 0, 2);
    lemma_tidy_tag(r, 0);
    if is_closed(tag_at(r, 0)) {
        assert forall|k: int| 0 < k < r.len() implies #[trigger] r[k] != 60 by {}
        lemma_not_in_tag(r, utf8("<row "@), 1);
        lemma_not_in_tag(r, utf8("</sheetData>"@), 0);
    } else {
        let stop = tag_stop(r, 0);
        lemma_find_from(r, utf8("</row>"@), stop);
        lemma_byte_at(r, utf8("</row>"@), r.len() - 6, 4);
    }
}

/// A row goes in front of another one or of the end of the data.
pub proof fn lemma_place_byte(xml: Seq<u8>, number: u32)
    ensures
        row_place(xml, number) matches Some(at) ==> 0 <= at < xml.len() && xml[at] == 60 && starts_next(
            xml,
            at,
        ),
{
    lemma_sheet_ends();
    lemma_opens();
    lemma_slot_tag(xml, number, 0);
    lemma_rfind(xml, utf8("</sheetData>"@));
    if let Some(at) = row_place(xml, number) {
        if row_slot(xml, number, 0) is Some {
            lemma_byte_at(xml, utf8("<row "@), at, 0);
        } else {
            lemma_byte_at(xml, utf8("</sheetData>"@), at, 0);
        }
    }
}

/// A row goes in front of one with a larger number.
pub proof fn lemma_slot_tag(xml: Seq<u8>, number: u32, i: int)
    requires
        0 <= i,
    ensures
        row_slot(xml, number, i) matches Some(at) ==> {
            &&& i <= at
            &&& occurs_at(xml, utf8("<row "@), at)
            &&& tag_number(tag_at(xml, at)) matches Some(other) && other > number
        },
    decreases xml.len() + 1 - i,
{
    lemma_find_from(xml, utf8("<row "@), i);
    if let Some(at) = find_from(xml, utf8("<row "@), i) {
        lemma_slot_tag(xml, number, at + 1);
    }
}

/// Setting a cell, by the pieces around its row.
#[verifier::spinoff_prover]
#[verifier::rlimit(60)]
pub proof fn lemma_set_between(
    sheet: SheetView,
    number: u32,
    a: Seq<u8>,
    t: Seq<u8>,
    r: Seq<u8>,
    b: Seq<u8>,
    coord: Seq<char>,
    value: Seq<char>,
)
    requires
        coord_row(coord) == Some(number),
        leading_column(utf8(coord)) is Some,
        sheet.xml == a + r + b,
        is_head(t),
        is_body(body_of(sheet.xml, number)),
        body_holds(body_of(sheet.xml, number), coord),
        match row_found(sheet.xml, number) {
            Some(found) => found == Ok::<(int, int), crate::error::ErrorView>(
                (a.len() as int, (a.len() + r.len()) as int),
            ) && row_opened(r) == t + body_of(sheet.xml, number),
            None => r.len() == 0 && row_place(sheet.xml, number) == Some(a.len() as int) && t
                == new_head(number),
        },
    ensures
        cell_set(sheet, coord, value) == (match body_with(
            body_of(sheet.xml, number),
            coord,
            value,
        ) {
            None => None,
            Some(set) => Some(
                crate::sheet::edited(raised(sheet, number), a + (t + set) + b),
            ),
        }),
{
    let m = body_of(sheet.xml, number);
    lemma_opens();
    lemma_cell_pieces(m, coord);
    lemma_find_from(body_without(m, coord), utf8("</row>"@), 0);
    match row_found(sheet.xml, number) {
        Some(_) => {
            lemma_row_body(t, m, coord, value);
            assert(sheet.xml.subrange(a.len() as int, (a.len() + r.len()) as int) =~= r);
            if let Some(set) = body_with(m, coord, value) {
                lemma_replaced(a, r, b, t + set);
            }
        },
        None => {
            lemma_new_body(number, coord, value);
            assert(sheet.xml =~= a + b);
            lemma_inserted(a, b, t + body_with(m, coord, value)->0);
        },
    }
}

/// What takes the place of the middle one of three pieces.
pub proof fn lemma_replaced(a: Seq<u8>, r: Seq<u8>, b: Seq<u8>, new: Seq<u8>)
    ensures
        replace(a + r + b, a.len() as int, (a.len() + r.len()) as int, new) == a + new + b,
{
    assert(replace(a + r + b, a.len() as int, (a.len() + r.len()) as int, new) =~= a + new + b);
}

/// What is put between two pieces.
pub proof fn lemma_inserted(a: Seq<u8>, b: Seq<u8>, new: Seq<u8>)
    ensures
        insert(a + b, a.len() as int, new) == a + new + b,
{
    assert(insert(a + b, a.len() as int, new) =~= a + new + b);
}

/// A new row with a cell is a row without cells in which the cell was set.
pub proof fn lemma_new_body(number: u32, coord: Seq<char>, value: Seq<char>)
    requires
        leading_column(utf8(coord)) is Some,
    ensures
        body_with(utf8("</row>"@), coord, value) is Some,
        new_row(number, written_cell(coord, value)) == new_head(number) + body_with(
            utf8("</row>"@),
            coord,
            value,
        )->0,
{
    let cell = written_cell(coord, value);
    let close = utf8("</row>"@);
    lemma_bare_body();
    assert(insert(close, 0, cell) =~= cell + close);
    assert(new_row(number, cell) =~= new_head(number) + (cell + close));
}

// ---- setting a cell -----------------------------------------------------------------------

/// The cell `coord` can be set in a sheet and found again: it has a row and a column, the sheet is
/// tidy, its row, where it is there, is one that cells can go into, and the row has the cell once at
/// most.
pub open spec fn can_hold(sheet: SheetView, coord: Seq<char>) -> bool {
    &&& is_cell_name(coord)
    &&& leading_column(utf8(coord)) is Some
    &&& coord_row(coord) matches Some(number) && keeps_row(sheet.xml, number) && body_holds(
        body_of(sheet.xml, number),
        coord,
    )
}

/// A cell that was set stands in its row once, as it was written, and the row holds what it held
/// before besides; the cell stands where it would be put, and the sheet can hold it again.
pub proof fn law_set_cell_holds(sheet: SheetView, coord: Seq<char>, value: Seq<char>)
    requires
        can_hold(sheet, coord),
    ensures
        cell_set(sheet, coord, value) matches Some(outcome) ==> (outcome.result is Ok ==> {
            let number = coord_row(coord)->0;
            let before = body_of(sheet.xml, number);
            let after = body_of(outcome.sheet.xml, number);
            let at = tag_of(after, "<c "@, coord, 0)->0;
            let stop = element_stop(after, at, "</c>"@)->0;
            &&& tag_of(after, "<c "@, coord, 0) is Some
            &&& element_stop(after, at, "</c>"@) is Some
            &&& after.subrange(at, stop) == written_cell(coord, value)
            &&& body_without(after, coord) == body_without(before, coord)
            &&& body_places(after, coord)
            &&& can_hold(outcome.sheet, coord)
        }),
{
    let number = coord_row(coord)->0;
    if let Some(outcome) = cell_set(sheet, coord, value) {
        if outcome.result is Ok {
            let (a, t, r, b) = lemma_around_row(sheet.xml, number);
            let m = body_of(sheet.xml, number);
            lemma_set_between(sheet, number, a, t, r, b, coord, value);
            lemma_cell_set(m, coord, value);
            let set = body_with(m, coord, value)->0;
            lemma_row_there(a, t, set, b, number);
        }
    }
}

/// Setting a cell, and setting it again, is setting it the second time alone.
pub proof fn law_set_cell_overwrites(
    sheet: SheetView,
    coord: Seq<char>,
    first: Seq<char>,
    second: Seq<char>,
)
    requires
        can_hold(sheet, coord),
    ensures
        cell_set(sheet, coord, first) matches Some(outcome) ==> (outcome.result is Ok ==> cell_set(
            outcome.sheet,
            coord,
            second,
        ) == cell_set(sheet, coord, second)),
{
    let number = coord_row(coord)->0;
    if let Some(outcome) = cell_set(sheet, coord, first) {
        if outcome.result is Ok {
            let (a, t, r, b) = lemma_around_row(sheet.xml, number);
            let m = body_of(sheet.xml, number);
            lemma_set_between(sheet, number, a, t, r, b, coord, first);
            lemma_set_between(sheet, number, a, t, r, b, coord, second);
            lemma_cell_set(m, coord, first);
            let set = body_with(m, coord, first)->0;
            lemma_row_there(a, t, set, b, number);
            lemma_row_made(t, set, number);
            lemma_set_between(outcome.sheet, number, a, t, t + set, b, coord, second);
        }
    }
}

/// Two cells of one row and of different columns, each there once at most and where it would be put,
/// can be set in either order.
#[verifier::spinoff_prover]
#[verifier::rlimit(60)]
pub proof fn law_set_cells_of_row_commute(
    sheet: SheetView,
    one: Seq<char>,
    first: Seq<char>,
    other: Seq<char>,
    second: Seq<char>,
)
    requires
        can_hold(sheet, one),
        can_hold(sheet, other),
        coord_row(one) == coord_row(other),
        leading_column(utf8(one)) != leading_column(utf8(other)),
        body_places(body_of(sheet.xml, coord_row(one)->0), one),
        body_places(body_of(sheet.xml, coord_row(one)->0), other),
    ensures
        cell_set(sheet, one, first) matches Some(left) ==> (cell_set(sheet, other, second)
            matches Some(right) ==> (left.result is Ok && right.result is Ok ==> cell_set(
            left.sheet,
            other,
            second,
        ) == cell_set(right.sheet, one, first))),
{
    let number = coord_row(one)->0;
    let left = cell_set(sheet, one, first);
    let right = cell_set(sheet, other, second);
    if left is Some && right is Some && left->0.result is Ok && right->0.result is Ok {
        let (a, t, r, b) = lemma_around_row(sheet.xml, number);
        let m = body_of(sheet.xml, number);
        lemma_set_between(sheet, number, a, t, r, b, one, first);
        lemma_set_between(sheet, number, a, t, r, b, other, second);
        lemma_cells_commute(m, one, first, other, second);
        lemma_cell_set(m, one, first);
        lemma_cell_set(m, other, second);
        let x = body_with(m, one, first)->0;
        let y = body_with(m, other, second)->0;
        lemma_row_there(a, t, x, b, number);
        lemma_row_made(t, x, number);
        lemma_set_between(left->0.sheet, number, a, t, t + x, b, other, second);
        lemma_row_there(a, t, y, b, number);
        lemma_row_made(t, y, number);
        lemma_set_between(right->0.sheet, number, a, t, t + y, b, one, first);
    }
}

/// The last row is the larger of what it was and the row of a cell that was set, and a cell that is
/// refused changes nothing.
pub proof fn law_set_cell_last_row(sheet: SheetView, coord: Seq<char>, value: Seq<char>)
    ensures
        cell_set(sheet, coord, value) matches Some(outcome) ==> match outcome.result {
            Ok(_) => coord_row(coord) is Some && outcome.sheet.last_row == (if coord_row(coord)->0
                > sheet.last_row {
                coord_row(coord)->0
            } else {
                sheet.last_row
            }),
            Err(_) => outcome.sheet == sheet,
        },
{
}

/// Setting a cell of a row that is there leaves what stands in front of the row and behind it as it
/// was.
pub proof fn law_set_cell_leaves_rest(sheet: SheetView, coord: Seq<char>, value: Seq<char>)
    ensures
        coord_row(coord) matches Some(number) ==> (row_found(sheet.xml, number) matches Some(Ok((
            start,
            stop,
        ))) ==> (cell_set(sheet, coord, value) matches Some(outcome) ==> {
            let xml = outcome.sheet.xml;
            &&& outcome.result is Ok
            &&& xml.take(start) == sheet.xml.take(start)
            &&& xml.skip(xml.len() - (sheet.xml.len() - stop)) == sheet.xml.skip(stop)
        })),
{
    if let Some(number) = coord_row(coord) {
        crate::sheet::lemma_row_found(sheet.xml, number);
        if let Some(Ok((start, stop))) = row_found(sheet.xml, number) {
            if let Some(outcome) = cell_set(sheet, coord, value) {
                let xml = outcome.sheet.xml;
                assert(xml.take(start) =~= sheet.xml.take(start));
                assert(xml.skip(xml.len() - (sheet.xml.len() - stop)) =~= sheet.xml.skip(stop));
            }
        }
    }
}

/// Setting a cell of a row that is not there adds the row with the cell alone, and leaves all else as it
/// was.
pub proof fn law_set_cell_adds_row(sheet: SheetView, coord: Seq<char>, value: Seq<char>)
    requires
        coord_row(coord) is Some,
        row_found(sheet.xml, coord_row(coord)->0) is None,
    ensures
        cell_set(sheet, coord, value) matches Some(outcome) ==> (outcome.result is Ok ==> exists|
            at: int,
        |
            0 <= at <= sheet.xml.len() && outcome.sheet.xml == #[trigger] insert(
                sheet.xml,
                at,
                new_row(coord_row(coord)->0, written_cell(coord, value)),
            )),
{
    lemma_place_byte(sheet.xml, coord_row(coord)->0);
}

} // verus!
