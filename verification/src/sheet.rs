//! The cells and rows of a worksheet.

use vstd::prelude::*;
use vstd::string::*;
use crate::bytes::{
    copy_range, find_from, insert, insert_bytes, lemma_find_from, occurs_at, position, push_bytes,
    replace, replace_bytes, rfind,
};
use crate::coord::{
    cell_name, cell_name_text, column_index, column_value, try_col_index_of_bytes, upper_byte,
};
use crate::error::{ErrorView, XlsxError};
use crate::text::{
    chars_of, decimal, decimal_text, decode, digit_start, digit_start_of, is_number, join3,
    lemma_utf8_ascii, locate, locate_last, looks_like_number, parse_u32, table_views, text_of,
    text_views, u32_of, u32_of_bytes, utf8,
};
use crate::tags::{
    closes_itself, copy_tag, element_stop, find_tag_of, find_value, is_closed, lemma_bracket,
    lemma_tag_of, lemma_tag_stop, stop_of_element, stop_of_tag, tag_at, tag_of, tag_stop,
    value_in_tag,
};
use crate::xml::{escaped, outer_element, pair_views, text_element, written_element};

verus! {

/// A worksheet.
pub struct Sheet {
    /// The worksheet's document.
    pub xml: Vec<u8>,
    /// The number of the last row.
    pub last_row: u32,
}

/// The view of a worksheet.
pub struct SheetView {
    pub xml: Seq<u8>,
    pub last_row: u32,
}

impl View for Sheet {
    type V = SheetView;

    open spec fn view(&self) -> SheetView {
        SheetView { xml: self.xml@, last_row: self.last_row }
    }
}

/// What an operation makes of a worksheet, and what it returns.
pub struct SheetOutcome {
    pub sheet: SheetView,
    pub result: Result<(), ErrorView>,
}

/// An operation that is refused with `error` and leaves the worksheet as it was.
pub open spec fn refused(sheet: SheetView, error: ErrorView) -> SheetOutcome {
    SheetOutcome { sheet, result: Err(error) }
}

/// An operation that succeeds and changes the document alone.
pub open spec fn edited(sheet: SheetView, xml: Seq<u8>) -> SheetOutcome {
    SheetOutcome { sheet: SheetView { xml, ..sheet }, result: Ok(()) }
}

// ---- one cell -----------------------------------------------------------------------------

/// A formula starts with an equals sign.
pub open spec fn is_formula(value: Seq<char>) -> bool {
    value.len() > 0 && value[0] == '='
}

/// The element for the cell `coord` with the value `value`: a formula, a number or a text.
pub open spec fn written_cell(coord: Seq<char>, value: Seq<char>) -> Seq<u8> {
    if is_formula(value) {
        written_element(
            "c"@,
            seq![("r"@, coord)],
            written_element("f"@, Seq::empty(), utf8(escaped(value.skip(1)))),
        )
    } else if is_number(value) {
        written_element(
            "c"@,
            seq![("r"@, coord)],
            written_element("v"@, Seq::empty(), utf8(escaped(value))),
        )
    } else {
        written_element(
            "c"@,
            seq![("r"@, coord), ("t"@, "inlineStr"@)],
            written_element(
                "is"@,
                Seq::empty(),
                written_element("t"@, Seq::empty(), utf8(escaped(value))),
            ),
        )
    }
}

/// The element for the cell `coord` with the value `value`.
pub fn cell_xml(coord: &str, value: &str) -> (xml: Vec<u8>)
    ensures
        xml@ == written_cell(coord@, value@),
{
    let chars = chars_of(value);
    if chars.len() > 0 && chars[0] == '=' {
        let formula = value.substring_char(1, chars.len());
        assert(formula@ =~= value@.skip(1));
        let inner = text_element("f", formula);
        let attributes: [(&str, &str); 1] = [("r", coord)];
        assert(pair_views(attributes@) =~= seq![("r"@, coord@)]);
        outer_element("c", attributes.as_slice(), inner.as_slice())
    } else if looks_like_number(value) {
        let inner = text_element("v", value);
        let attributes: [(&str, &str); 1] = [("r", coord)];
        assert(pair_views(attributes@) =~= seq![("r"@, coord@)]);
        outer_element("c", attributes.as_slice(), inner.as_slice())
    } else {
        let text = text_element("t", value);
        let none: [(&str, &str); 0] = [];
        assert(pair_views(none@) =~= Seq::empty());
        let inner = outer_element("is", none.as_slice(), text.as_slice());
        let attributes: [(&str, &str); 2] = [("r", coord), ("t", "inlineStr")];
        assert(pair_views(attributes@) =~= seq![("r"@, coord@), ("t"@, "inlineStr"@)]);
        outer_element("c", attributes.as_slice(), inner.as_slice())
    }
}

/// The row of a coordinate: the number from its first digit on.
pub open spec fn coord_row(coord: Seq<char>) -> Option<u32> {
    u32_of(coord.skip(digit_start(coord, 0)))
}

/// The row of a coordinate.
pub(crate) fn row_of(coord: &str) -> (row: Option<u32>)
    ensures
        row == coord_row(coord@),
{
    let chars = chars_of(coord);
    let start: usize = digit_start_of(chars.as_slice());
    let digits = coord.substring_char(start, chars.len());
    assert(digits@ =~= coord@.skip(start as int));
    match parse_u32(digits) {
        Ok(row) => Some(row),
        Err(_) => None,
    }
}

/// A byte that is an ASCII letter.
pub open spec fn is_letter_byte(b: u8) -> bool {
    65 <= upper_byte(b) <= 90
}

/// The first position at or after `i` whose byte is not an ASCII letter.
pub open spec fn letter_bytes_end(bytes: Seq<u8>, i: int) -> int
    decreases bytes.len() - i,
{
    if 0 <= i < bytes.len() && is_letter_byte(bytes[i]) {
        letter_bytes_end(bytes, i + 1)
    } else {
        i
    }
}

/// The number of the column that a cell name starts with, counted from one and zero without
/// letters, where a `u32` can hold it.
pub open spec fn leading_column(name: Seq<u8>) -> Option<u32> {
    let value = column_value(name.take(letter_bytes_end(name, 0)));
    if value <= u32::MAX {
        Some(value as u32)
    } else {
        None
    }
}

/// More letters stand for no smaller a number.
proof fn lemma_letters_grow(name: Seq<u8>, i: int)
    requires
        0 <= i <= name.len(),
        0 <= column_value(name.take(i)),
    ensures
        i <= letter_bytes_end(name, i) <= name.len(),
        column_value(name.take(i)) <= column_value(name.take(letter_bytes_end(name, i))),
    decreases name.len() - i,
{
    if i < name.len() && is_letter_byte(name[i]) {
        assert(name.take(i + 1).drop_last() =~= name.take(i));
        lemma_letters_grow(name, i + 1);
    }
}

/// The number of the column that a cell name starts with.
fn column_of(name: &[u8]) -> (column: Option<u32>)
    ensures
        column == leading_column(name@),
{
    let mut value: u32 = 0;
    let mut i: usize = 0;
    assert(name@.take(0) =~= Seq::<u8>::empty());
    while i < name.len()
        invariant
            i <= name@.len(),
            value == column_value(name@.take(i as int)),
            letter_bytes_end(name@, 0) == letter_bytes_end(name@, i as int),
        decreases name@.len() - i,
    {
        let b: u8 = name[i];
        let capital: u8 = if 97 <= b && b <= 122 {
            b - 32
        } else {
            b
        };
        if capital < 65 || capital > 90 {
            return Some(value);
        }
        let ghost next = name@.take(i + 1);
        assert(next.drop_last() =~= name@.take(i as int));
        let wide: u64 = (value as u64) * 26 + (capital - 64) as u64;
        if wide > u32::MAX as u64 {
            proof {
                lemma_letters_grow(name@, i + 1);
            }
            return None;
        }
        value = wide as u32;
        i += 1;
    }
    Some(value)
}

// ---- a cell in its row --------------------------------------------------------------------

/// Where the cell `coord` starts in a row: its tag refers to it.
pub open spec fn cell_start(row: Seq<u8>, coord: Seq<char>) -> Option<int> {
    tag_of(row, "<c "@, coord, tag_stop(row, 0))
}

/// Where the cell that starts at `start` ends.
pub open spec fn cell_stop(row: Seq<u8>, start: int) -> Option<int> {
    element_stop(row, start, "</c>"@)
}

/// A row without the cell `coord`. A cell that does not end is left.
pub open spec fn without_cell(row: Seq<u8>, coord: Seq<char>) -> Seq<u8> {
    match cell_start(row, coord) {
        None => row,
        Some(start) => match cell_stop(row, start) {
            None => row,
            Some(stop) => replace(row, start, stop, Seq::empty()),
        },
    }
}

/// The column that the tag of a cell refers to: `None` if it refers to none, and `Some(None)` if it is
/// too large to be held.
pub open spec fn tag_column(tag: Seq<u8>) -> Option<Option<u32>> {
    match value_in_tag(tag, " r=\""@) {
        None => None,
        Some(name) => if text_of(name) is None {
            None
        } else {
            Some(leading_column(name))
        },
    }
}

/// The first cell at or after `i` of a column behind `column`. `None` stands for a cell in front of it
/// whose column is too large to be held.
pub open spec fn later_cell(row: Seq<u8>, column: u32, i: int) -> Option<Option<int>>
    decreases row.len() + 1 - i,
{
    if i < 0 {
        Some(None)
    } else {
        match find_from(row, utf8("<c "@), i) {
            None => Some(None),
            Some(at) => {
                proof {
                    lemma_find_from(row, utf8("<c "@), i);
                }
                match tag_column(tag_at(row, at)) {
                    None => later_cell(row, column, at + 1),
                    Some(None) => None,
                    Some(Some(other)) => if other > column {
                        Some(Some(at))
                    } else {
                        later_cell(row, column, at + 1)
                    },
                }
            },
        }
    }
}

/// Where a cell of column `column` goes in a row: in front of the first cell of a later column, or
/// else in front of the end of the row. `None` stands for a cell whose column is too large to be
/// held.
pub open spec fn cell_slot(row: Seq<u8>, column: u32) -> Option<int> {
    match later_cell(row, column, tag_stop(row, 0)) {
        None => None,
        Some(None) => Some(row.len() - utf8("</row>"@).len()),
        Some(Some(at)) => Some(at),
    }
}

/// A row with the cell `coord` set to `value`. `None` stands for a cell whose column is too large
/// to be held.
pub open spec fn with_cell(row: Seq<u8>, coord: Seq<char>, value: Seq<char>) -> Option<Seq<u8>> {
    let rest = without_cell(row, coord);
    match leading_column(utf8(coord)) {
        None => None,
        Some(column) => match cell_slot(rest, column) {
            None => None,
            Some(at) => Some(insert(rest, at, written_cell(coord, value))),
        },
    }
}

/// The column that the tag of a cell refers to.
fn column_of_tag(tag: &[u8]) -> (column: Option<Option<u32>>)
    ensures
        column == tag_column(tag@),
{
    match find_value(tag, " r=\"") {
        None => None,
        Some(name) => {
            if decode(name.as_slice()).is_err() {
                return None;
            }
            Some(column_of(name.as_slice()))
        },
    }
}

/// The first byte of the start of a cell's or a row's tag.
pub proof fn lemma_opens()
    ensures
        utf8("<c "@) == seq![60u8, 99u8, 32u8],
        utf8("<row "@) == seq![60u8, 114u8, 111u8, 119u8, 32u8],
        utf8("</row>"@) == seq![60u8, 47u8, 114u8, 111u8, 119u8, 62u8],
        utf8("</c>"@) == seq![60u8, 47u8, 99u8, 62u8],
{
    reveal_strlit("<c ");
    reveal_strlit("<row ");
    reveal_strlit("</row>");
    reveal_strlit("</c>");
    lemma_utf8_ascii("<c "@);
    lemma_utf8_ascii("<row "@);
    lemma_utf8_ascii("</row>"@);
    lemma_utf8_ascii("</c>"@);
    assert(utf8("<c "@) =~= seq![60u8, 99u8, 32u8]);
    assert(utf8("<row "@) =~= seq![60u8, 114u8, 111u8, 119u8, 32u8]);
    assert(utf8("</row>"@) =~= seq![60u8, 47u8, 114u8, 111u8, 119u8, 62u8]);
    assert(utf8("</c>"@) =~= seq![60u8, 47u8, 99u8, 62u8]);
}

/// Where a cell of column `column` goes in a row.
fn slot_in_row(row: &[u8], column: u32) -> (slot: Option<usize>)
    requires
        utf8("</row>"@).len() <= row@.len(),
    ensures
        position(slot) == cell_slot(row@, column),
        slot matches Some(at) ==> at <= row@.len(),
{
    let total: usize = row.len();
    let close: usize = "</row>".len();
    proof {
        lemma_opens();
    }
    let mut i: usize = stop_of_tag(row, 0);
    loop
        invariant
            i <= total == row@.len(),
            close == utf8("</row>"@).len() <= row@.len(),
            utf8("<c "@).len() == 3,
            later_cell(row@, column, tag_stop(row@, 0)) == later_cell(row@, column, i as int),
        decreases row@.len() - i,
    {
        let at: usize = match locate(row, "<c ", i) {
            None => {
                return Some(total - close);
            },
            Some(at) => at,
        };
        let tag = copy_tag(row, at);
        match column_of_tag(tag.as_slice()) {
            None => {},
            Some(None) => {
                return None;
            },
            Some(Some(other)) => {
                if other > column {
                    return Some(at);
                }
            },
        }
        i = at + 1;
    }
}

/// Takes the cell `coord` out of a row.
fn remove_cell(row: &mut Vec<u8>, coord: &str)
    ensures
        final(row)@ == without_cell(old(row)@, coord@),
{
    let empty: Vec<u8> = Vec::new();
    proof {
        lemma_opens();
    }
    let from: usize = stop_of_tag(row.as_slice(), 0);
    if let Some(start) = find_tag_of(row.as_slice(), "<c ", coord, from) {
        if let Some(stop) = stop_of_element(row.as_slice(), start, "</c>") {
            replace_bytes(row, start, stop, empty.as_slice());
        }
    }
}

/// What is left of a row without a cell can still end with `</row>`.
pub proof fn lemma_row_keeps_end(row: Seq<u8>, coord: Seq<char>)
    requires
        6 <= row.len(),
        tag_stop(row, 0) <= row.len() - 6,
        row.skip(row.len() - 6) == utf8("</row>"@),
    ensures
        6 <= without_cell(row, coord).len(),
{
    let close = utf8("</row>"@);
    lemma_opens();
    lemma_bracket();
    lemma_tag_stop(row, 0);
    lemma_find_from(row, utf8(">"@), 0);
    let from = tag_stop(row, 0);
    lemma_tag_of(row, "<c "@, coord, from);
    if let Some(start) = cell_start(row, coord) {
        lemma_tag_stop(row, start);
        lemma_find_from(row, utf8("</c>"@), tag_stop(row, start));
        if let Some(stop) = cell_stop(row, start) {
            let end = row.len() - 6;
            assert forall|i: int| 0 <= i < 6 implies row[end + i] == #[trigger] close[i] by {
                assert(row.skip(end)[i] == row[end + i]);
            }
            assert(row[end + 0] == close[0]);
            assert(row[end + 1] == close[1]);
            assert(row[end + 2] == close[2]);
            assert(row[end + 3] == close[3]);
            assert(row[end + 4] == close[4]);
            assert(row[end + 5] == close[5]);
            assert(row.subrange(start, start + 3)[0] == 60);
            assert(row.subrange(start, start + 3)[1] == 99);
            if is_closed(tag_at(row, start)) {
                assert(tag_at(row, start)[tag_at(row, start).len() - 2] == row[stop - 2]);
            } else {
                assert(row.subrange(stop - 4, stop)[2] == 99);
            }
        }
    }
}

/// Sets the cell `coord` of a row, or gives `None` where a column is too large to be held.
fn set_in_row(row: &mut Vec<u8>, coord: &str, value: &str) -> (done: Option<()>)
    requires
        utf8("</row>"@).len() <= without_cell(old(row)@, coord@).len(),
    ensures
        match with_cell(old(row)@, coord@, value@) {
            None => done is None,
            Some(set) => done is Some && final(row)@ == set,
        },
{
    let cell = cell_xml(coord, value);
    remove_cell(row, coord);
    let column: u32 = match column_of(coord.as_bytes()) {
        None => {
            return None;
        },
        Some(column) => column,
    };
    match slot_in_row(row.as_slice(), column) {
        None => None,
        Some(at) => {
            insert_bytes(row, at, cell.as_slice());
            Some(())
        },
    }
}

// ---- a row in its sheet -------------------------------------------------------------------

/// Where the row `number` starts: its tag refers to it.
pub open spec fn row_start(xml: Seq<u8>, number: u32) -> Option<int> {
    tag_of(xml, "<row "@, decimal(number as nat), 0)
}

/// Where the row that starts at `start` ends.
pub open spec fn row_stop(xml: Seq<u8>, start: int) -> Option<int> {
    element_stop(xml, start, "</row>"@)
}

/// A row that cells can go into: one whose tag closes itself is given an end.
pub open spec fn row_opened(row: Seq<u8>) -> Seq<u8> {
    if is_closed(row) {
        row.take(row.len() - 2) + utf8("></row>"@)
    } else {
        row
    }
}

/// The place of the row `number`: where it starts and where it ends. `None` stands for a row that is
/// not there, and an error for one that does not end.
pub open spec fn row_found(xml: Seq<u8>, number: u32) -> Option<Result<(int, int), ErrorView>> {
    match row_start(xml, number) {
        None => None,
        Some(start) => match row_stop(xml, start) {
            None => Some(Err(ErrorView::XmlTagNotFound("</row>"@))),
            Some(stop) => Some(Ok((start, stop))),
        },
    }
}

/// A row that was found lies in the document, and ends with `</row>` when it is opened.
pub proof fn lemma_row_found(xml: Seq<u8>, number: u32)
    ensures
        row_found(xml, number) matches Some(Ok((start, stop))) ==> {
            let row = row_opened(xml.subrange(start, stop));
            &&& 0 <= start < stop <= xml.len()
            &&& 6 <= row.len()
            &&& tag_stop(row, 0) <= row.len() - 6
            &&& row.skip(row.len() - 6) == utf8("</row>"@)
        },
{
    lemma_opens();
    lemma_bracket();
    lemma_tag_of(xml, "<row "@, decimal(number as nat), 0);
    if let Some(Ok((start, stop))) = row_found(xml, number) {
        let close = utf8("</row>"@);
        lemma_tag_stop(xml, start);
        let tag_end = tag_stop(xml, start);
        lemma_find_from(xml, close, tag_end);
        lemma_find_from(xml, utf8(">"@), start);
        let text = xml.subrange(start, stop);
        let row = row_opened(text);
        reveal_strlit("></row>");
        lemma_utf8_ascii("></row>"@);
        let tail = utf8("></row>"@);
        assert(tail =~= seq![62u8] + close) by {
            reveal_strlit("</row>");
            lemma_utf8_ascii("</row>"@);
        }
        if is_closed(tag_at(xml, start)) {
            assert(text == tag_at(xml, start));
            assert(row.skip(row.len() - 6) =~= close);
            assert(row[text.len() - 2] == 62);
            lemma_first_bracket(row, text.len() - 2);
        } else {
            assert(text.skip(text.len() - 6) =~= close);
            assert(text[text.len() - 2] == text.skip(text.len() - 6)[4]);
            assert(!is_closed(text));
            if find_from(xml, utf8(">"@), start) is Some {
                assert(xml.subrange(tag_end - 1, tag_end)[0] == 62);
                assert(text[tag_end - 1 - start] == 62);
                lemma_first_bracket(row, tag_end - 1 - start);
            }
        }
    }
}

/// The first tag of a document ends no later than the first `>` that is known.
proof fn lemma_first_bracket(row: Seq<u8>, p: int)
    requires
        0 <= p < row.len(),
        row[p] == 62,
    ensures
        tag_stop(row, 0) <= p + 1,
{
    lemma_bracket();
    lemma_find_from(row, utf8(">"@), 0);
    assert(row.subrange(p, p + 1) =~= utf8(">"@));
    assert(occurs_at(row, utf8(">"@), p));
}

/// Where a row `number` goes, searched from `i` on: in front of the first row with a larger number.
pub open spec fn row_slot(xml: Seq<u8>, number: u32, i: int) -> Option<int>
    decreases xml.len() + 1 - i,
{
    if i < 0 {
        None
    } else {
        match find_from(xml, utf8("<row "@), i) {
            None => None,
            Some(at) => {
                proof {
                    lemma_find_from(xml, utf8("<row "@), i);
                }
                match tag_number(tag_at(xml, at)) {
                    Some(other) if other > number => Some(at),
                    _ => row_slot(xml, number, at + 1),
                }
            },
        }
    }
}

/// A quote is one byte.
pub proof fn lemma_quote()
    ensures
        utf8("\""@).len() == 1,
        utf8("\""@)[0] == 34,
{
    reveal_strlit("\"");
    lemma_utf8_ascii("\""@);
}

/// The number that the tag of a row refers to.
pub open spec fn tag_number(tag: Seq<u8>) -> Option<u32> {
    match value_in_tag(tag, " r=\""@) {
        None => None,
        Some(digits) => u32_of_bytes(digits),
    }
}

/// Where a row `number` goes: in front of the first row with a larger number, or else at the end of
/// the sheet's data.
pub open spec fn row_place(xml: Seq<u8>, number: u32) -> Option<int> {
    match row_slot(xml, number, 0) {
        Some(at) => Some(at),
        None => rfind(xml, utf8("</sheetData>"@)),
    }
}

/// A new row `number` with `cells` in it.
pub open spec fn new_row(number: u32, cells: Seq<u8>) -> Seq<u8> {
    utf8("<row r=\""@ + decimal(number as nat) + "\">"@) + cells + utf8("</row>"@)
}

/// The number that the tag of a row refers to.
fn number_of_tag(tag: &[u8]) -> (number: Option<u32>)
    ensures
        number == tag_number(tag@),
{
    match find_value(tag, " r=\"") {
        None => None,
        Some(digits) => match decode(digits.as_slice()) {
            Err(_) => None,
            Ok(text) => match parse_u32(text) {
                Ok(n) => Some(n),
                Err(_) => None,
            },
        },
    }
}

/// Where a row `number` goes in front of another one.
fn slot_for_row(xml: &[u8], number: u32) -> (slot: Option<usize>)
    ensures
        position(slot) == row_slot(xml@, number, 0),
        slot matches Some(at) ==> at <= xml@.len(),
{
    proof {
        lemma_opens();
    }
    let mut i: usize = 0;
    let _total: usize = xml.len();
    loop
        invariant
            i <= xml@.len() <= usize::MAX,
            utf8("<row "@).len() == 5,
            row_slot(xml@, number, 0) == row_slot(xml@, number, i as int),
        decreases xml@.len() - i,
    {
        let at: usize = match locate(xml, "<row ", i) {
            None => {
                return None;
            },
            Some(at) => at,
        };
        let tag = copy_tag(xml, at);
        if let Some(other) = number_of_tag(tag.as_slice()) {
            if other > number {
                return Some(at);
            }
        }
        i = at + 1;
    }
}

/// Where a row `number` goes.
pub(crate) fn place_for_row(xml: &[u8], number: u32) -> (place: Option<usize>)
    ensures
        position(place) == row_place(xml@, number),
        place matches Some(at) ==> at <= xml@.len(),
{
    match slot_for_row(xml, number) {
        Some(at) => Some(at),
        None => locate_last(xml, "</sheetData>"),
    }
}

/// The row `number`, opened, and its place.
pub(crate) fn take_row(xml: &[u8], number: u32) -> (found: Option<
    Result<(usize, usize, Vec<u8>), XlsxError>,
>)
    ensures
        match row_found(xml@, number) {
            None => found is None,
            Some(Err(e)) => found matches Some(Err(r)) && r@ == e,
            Some(Ok((start, stop))) => found matches Some(Ok((s, e, row))) && s == start && e == stop
                && s <= e <= xml@.len() && row@ == row_opened(xml@.subrange(start, stop)),
        },
{
    proof {
        lemma_opens();
        lemma_row_found(xml@, number);
    }
    let digits = decimal_text(number as u64);
    let start: usize = match find_tag_of(xml, "<row ", digits.as_str(), 0) {
        None => {
            return None;
        },
        Some(start) => start,
    };
    let stop: usize = match stop_of_element(xml, start, "</row>") {
        None => {
            return Some(Err(XlsxError::XmlTagNotFound { tag: "</row>".to_owned() }));
        },
        Some(stop) => stop,
    };
    let mut row = copy_range(xml, start, stop);
    if closes_itself(row.as_slice()) {
        let at: usize = row.len() - 2;
        let end: usize = row.len();
        let ghost text = row@;
        replace_bytes(&mut row, at, end, "></row>".as_bytes());
        assert(row@ =~= row_opened(text));
    }
    Some(Ok((start, stop, row)))
}

/// A new row with the cell `coord` in it.
pub(crate) fn make_row(number: u32, cells: &[u8]) -> (row: Vec<u8>)
    ensures
        row@ == new_row(number, cells@),
{
    let digits = decimal_text(number as u64);
    let head = join3("<row r=\"", digits.as_str(), "\">");
    let mut row: Vec<u8> = Vec::new();
    push_bytes(&mut row, head.as_str().as_bytes());
    push_bytes(&mut row, cells);
    push_bytes(&mut row, "</row>".as_bytes());
    assert(row@ =~= new_row(number, cells@));
    row
}

/// A sheet whose last row is `number` at least.
pub open spec fn raised(sheet: SheetView, number: u32) -> SheetView {
    SheetView {
        last_row: if number > sheet.last_row {
            number
        } else {
            sheet.last_row
        },
        ..sheet
    }
}

/// What setting the cell `coord` to `value` makes of a sheet: a cell that is there is replaced, and a
/// row that is not there is made. `None` stands for a cell whose column is too large to be held.
pub open spec fn cell_set(sheet: SheetView, coord: Seq<char>, value: Seq<char>) -> Option<
    SheetOutcome,
> {
    match coord_row(coord) {
        None => Some(refused(sheet, ErrorView::InvalidCoordinate(coord))),
        Some(number) => match row_found(sheet.xml, number) {
            Some(Err(e)) => Some(refused(sheet, e)),
            Some(Ok((start, stop))) => match with_cell(
                row_opened(sheet.xml.subrange(start, stop)),
                coord,
                value,
            ) {
                None => None,
                Some(row) => Some(
                    edited(raised(sheet, number), replace(sheet.xml, start, stop, row)),
                ),
            },
            None => match row_place(sheet.xml, number) {
                None => Some(refused(sheet, ErrorView::XmlTagNotFound("</sheetData>"@))),
                Some(at) => Some(
                    edited(
                        raised(sheet, number),
                        insert(sheet.xml, at, new_row(number, written_cell(coord, value))),
                    ),
                ),
            },
        },
    }
}

/// An outcome holds of what an operation made and returned.
pub open spec fn reached(
    outcome: Option<SheetOutcome>,
    sheet: SheetView,
    result: Option<Result<(), XlsxError>>,
) -> bool {
    match outcome {
        None => result is None,
        Some(o) => result is Some && o.sheet == sheet && o.result == crate::error::result_view(
            result->0,
        ),
    }
}

// ---- whole rows ---------------------------------------------------------------------------

/// The cells of row `number`, from column `column` on.
pub open spec fn table_cells(column: nat, number: u32, values: Seq<Seq<char>>) -> Seq<u8>
    decreases values.len(),
{
    if values.len() == 0 {
        Seq::empty()
    } else {
        table_cells(column, number, values.drop_last()) + written_cell(
            cell_name((column + values.len() - 1) as nat, number as nat),
            values.last(),
        )
    }
}

/// The element for row `number` around its cells.
pub open spec fn written_row(number: u32, cells: Seq<u8>) -> Seq<u8> {
    written_element("row"@, seq![("r"@, decimal(number as nat))], cells)
}

/// Rows at the end of the sheet's data.
pub open spec fn rows_appended(sheet: SheetView, rows: Seq<u8>) -> SheetOutcome {
    match rfind(sheet.xml, utf8("</sheetData>"@)) {
        Some(at) => edited(sheet, insert(sheet.xml, at, rows)),
        None => refused(sheet, ErrorView::XmlTagNotFound("</sheetData>"@)),
    }
}

/// What appending a row of cells makes of a sheet. `None` stands for a row that cannot be numbered.
pub open spec fn row_appended(sheet: SheetView, values: Seq<Seq<char>>) -> Option<SheetOutcome> {
    if sheet.last_row == u32::MAX {
        None
    } else {
        let number = (sheet.last_row + 1) as u32;
        Some(
            rows_appended(
                SheetView { last_row: number, ..sheet },
                written_row(number, table_cells(0, number, values)),
            ),
        )
    }
}

/// The elements for the rows behind `last_row`.
pub open spec fn table_rows(last_row: u32, rows: Seq<Seq<Seq<char>>>) -> Seq<u8>
    decreases rows.len(),
{
    if rows.len() == 0 {
        Seq::empty()
    } else {
        let number = (last_row + rows.len()) as u32;
        table_rows(last_row, rows.drop_last()) + written_row(
            number,
            table_cells(0, number, rows.last()),
        )
    }
}

/// What appending a table makes of a sheet. `None` stands for a row that cannot be numbered.
pub open spec fn table_appended(sheet: SheetView, rows: Seq<Seq<Seq<char>>>) -> Option<
    SheetOutcome,
> {
    if sheet.last_row + rows.len() > u32::MAX {
        None
    } else {
        Some(
            rows_appended(
                SheetView { last_row: (sheet.last_row + rows.len()) as u32, ..sheet },
                table_rows(sheet.last_row, rows),
            ),
        )
    }
}

/// What setting the cells of row `number`, from the `j`-th value on, makes of a sheet.
pub open spec fn cells_set(
    sheet: SheetView,
    column: usize,
    number: u32,
    values: Seq<Seq<char>>,
    j: int,
) -> Option<SheetOutcome>
    decreases values.len() - j,
{
    if j < 0 || j >= values.len() {
        Some(edited(sheet, sheet.xml))
    } else if column + j > usize::MAX {
        None
    } else {
        match cell_set(sheet, cell_name((column + j) as nat, number as nat), values[j]) {
            None => None,
            Some(outcome) => if outcome.result is Err {
                Some(outcome)
            } else {
                cells_set(outcome.sheet, column, number, values, j + 1)
            },
        }
    }
}

/// A sheet in which a table is being placed, with the rows that are still to be appended.
pub struct Placing {
    pub sheet: SheetView,
    pub pending: Seq<u8>,
    pub result: Result<(), ErrorView>,
}

/// What placing the rows of a table, from the `k`-th on, makes of a sheet: a row that is there
/// already has its cells set, and any other is kept to be appended. `None` stands for a row that
/// cannot be numbered or a cell that cannot be named or placed.
pub open spec fn rows_placed(
    sheet: SheetView,
    pending: Seq<u8>,
    column: usize,
    first: u32,
    rows: Seq<Seq<Seq<char>>>,
    k: int,
) -> Option<Placing>
    decreases rows.len() - k,
{
    if k < 0 || k >= rows.len() {
        Some(Placing { sheet, pending, result: Ok(()) })
    } else if first + ((k as usize) as u32) > u32::MAX {
        None
    } else {
        let number = (first + ((k as usize) as u32)) as u32;
        let values = rows[k];
        if number <= sheet.last_row {
            match cells_set(sheet, column, number, values, 0) {
                None => None,
                Some(outcome) => if outcome.result is Err {
                    Some(Placing { sheet: outcome.sheet, pending, result: outcome.result })
                } else {
                    rows_placed(outcome.sheet, pending, column, first, rows, k + 1)
                },
            }
        } else if values.len() > 0 && column + values.len() - 1 > usize::MAX {
            None
        } else {
            rows_placed(
                SheetView { last_row: number, ..sheet },
                pending + written_row(number, table_cells(column as nat, number, values)),
                column,
                first,
                rows,
                k + 1,
            )
        }
    }
}

/// What placing a table at the cell `coord` makes of a sheet.
pub open spec fn table_placed(
    sheet: SheetView,
    coord: Seq<char>,
    rows: Seq<Seq<Seq<char>>>,
) -> Option<SheetOutcome> {
    let digits = digit_start(coord, 0);
    if digits >= coord.len() {
        Some(refused(sheet, ErrorView::InvalidCoordinate(coord)))
    } else {
        match column_index(coord.take(digits)) {
            None => None,
            Some(column) => match u32_of(coord.skip(digits)) {
                None => Some(refused(sheet, ErrorView::InvalidCoordinate(coord))),
                Some(first) => match rows_placed(sheet, Seq::empty(), column, first, rows, 0) {
                    None => None,
                    Some(placing) => match placing.result {
                        Err(e) => Some(refused(placing.sheet, e)),
                        Ok(_) => Some(rows_appended(placing.sheet, placing.pending)),
                    },
                },
            },
        }
    }
}

/// The element for row `number` around its cells.
fn row_xml(number: u32, cells: &[u8]) -> (xml: Vec<u8>)
    ensures
        xml@ == written_row(number, cells@),
{
    let digits = decimal_text(number as u64);
    let attributes: [(&str, &str); 1] = [("r", digits.as_str())];
    assert(pair_views(attributes@) =~= seq![("r"@, digits@)]);
    outer_element("row", attributes.as_slice(), cells)
}

/// The cells of row `number`, from column `column` on.
fn table_cells_xml(column: usize, number: u32, values: &[String]) -> (xml: Vec<u8>)
    requires
        values@.len() > 0 ==> column + values@.len() - 1 <= usize::MAX,
    ensures
        xml@ == table_cells(column as nat, number, text_views(values@)),
{
    let mut xml: Vec<u8> = Vec::new();
    let mut i: usize = 0;
    let ghost all = text_views(values@);
    while i < values.len()
        invariant
            i <= values@.len(),
            all == text_views(values@),
            values@.len() > 0 ==> column + values@.len() - 1 <= usize::MAX,
            xml@ == table_cells(column as nat, number, all.take(i as int)),
        decreases values@.len() - i,
    {
        let name = cell_name_text(column + i, number);
        let cell = cell_xml(name.as_str(), values[i].as_str());
        push_bytes(&mut xml, cell.as_slice());
        assert(all.take(i + 1).drop_last() =~= all.take(i as int));
        i += 1;
    }
    assert(all.take(values@.len() as int) =~= all);
    xml
}

impl Sheet {
    /// Sets a cell, or gives `None` where a column is too large to be held.
    pub(crate) fn run_set_cell(&mut self, coord: &str, value: &str) -> (result: Option<
        Result<(), XlsxError>,
    >)
        ensures
            reached(cell_set(old(self)@, coord@, value@), final(self)@, result),
    {
        let number: u32 = match row_of(coord) {
            None => {
                return Some(Err(XlsxError::InvalidCoordinate { coord: coord.to_owned() }));
            },
            Some(number) => number,
        };
        match take_row(self.xml.as_slice(), number) {
            Some(Err(e)) => {
                return Some(Err(e));
            },
            Some(Ok((start, stop, row))) => {
                let mut row = row;
                proof {
                    lemma_opens();
                    lemma_row_found(self.xml@, number);
                    lemma_row_keeps_end(row@, coord@);
                }
                if set_in_row(&mut row, coord, value).is_none() {
                    return None;
                }
                replace_bytes(&mut self.xml, start, stop, row.as_slice());
            },
            None => {
                let at: usize = match place_for_row(self.xml.as_slice(), number) {
                    Some(at) => at,
                    None => {
                        return Some(
                            Err(XlsxError::XmlTagNotFound { tag: "</sheetData>".to_owned() }),
                        );
                    },
                };
                let cell = cell_xml(coord, value);
                let row = make_row(number, cell.as_slice());
                insert_bytes(&mut self.xml, at, row.as_slice());
            },
        }
        if number > self.last_row {
            self.last_row = number;
        }
        Some(Ok(()))
    }

    /// Puts `rows` at the end of the sheet's data.
    fn append_rows(&mut self, rows: &[u8]) -> (result: Result<(), XlsxError>)
        ensures
            rows_appended(old(self)@, rows@).sheet == final(self)@,
            rows_appended(old(self)@, rows@).result == crate::error::result_view(result),
    {
        match locate_last(self.xml.as_slice(), "</sheetData>") {
            Some(at) => {
                insert_bytes(&mut self.xml, at, rows);
                Ok(())
            },
            None => Err(XlsxError::XmlTagNotFound { tag: "</sheetData>".to_owned() }),
        }
    }

    /// Appends a row, or gives `None` where it cannot be numbered.
    pub(crate) fn run_append_row(&mut self, values: &[String]) -> (result: Option<
        Result<(), XlsxError>,
    >)
        ensures
            reached(row_appended(old(self)@, text_views(values@)), final(self)@, result),
    {
        if self.last_row == u32::MAX {
            return None;
        }
        let number: u32 = self.last_row + 1;
        self.last_row = number;
        let _width: usize = values.len();
        let cells = table_cells_xml(0, number, values);
        let row = row_xml(number, cells.as_slice());
        Some(self.append_rows(row.as_slice()))
    }

    /// Appends a table, or gives `None` where a row cannot be numbered.
    pub(crate) fn run_append_table(&mut self, rows: &[Vec<String>]) -> (result: Option<
        Result<(), XlsxError>,
    >)
        ensures
            reached(table_appended(old(self)@, table_views(rows@)), final(self)@, result),
    {
        let before: u32 = self.last_row;
        if rows.len() > (u32::MAX - before) as usize {
            return None;
        }
        let mut xml: Vec<u8> = Vec::new();
        let mut k: usize = 0;
        let ghost all = table_views(rows@);
        while k < rows.len()
            invariant
                k <= rows@.len(),
                all == table_views(rows@),
                before + rows@.len() <= u32::MAX,
                xml@ == table_rows(before, all.take(k as int)),
            decreases rows@.len() - k,
        {
            let number: u32 = before + (k as u32) + 1;
            let _width: usize = rows[k].len();
            let cells = table_cells_xml(0, number, rows[k].as_slice());
            let row = row_xml(number, cells.as_slice());
            push_bytes(&mut xml, row.as_slice());
            assert(all.take(k + 1).drop_last() =~= all.take(k as int));
            k += 1;
        }
        assert(all.take(rows@.len() as int) =~= all);
        self.last_row = before + rows.len() as u32;
        Some(self.append_rows(xml.as_slice()))
    }

    /// Sets the cells of row `number` from column `column` on, or gives `None` where one cannot be
    /// named or placed.
    fn run_set_cells(&mut self, column: usize, number: u32, values: &[String]) -> (result: Option<
        Result<(), XlsxError>,
    >)
        ensures
            reached(
                cells_set(old(self)@, column, number, text_views(values@), 0),
                final(self)@,
                result,
            ),
    {
        let mut j: usize = 0;
        let ghost all = text_views(values@);
        let ghost outcome = cells_set(self@, column, number, all, 0);
        while j < values.len()
            invariant
                j <= values@.len(),
                all == text_views(values@),
                outcome == cells_set(self@, column, number, all, j as int),
                outcome == cells_set(old(self)@, column, number, all, 0),
            decreases values@.len() - j,
        {
            if column > usize::MAX - j {
                return None;
            }
            let name = cell_name_text(column + j, number);
            match self.run_set_cell(name.as_str(), values[j].as_str()) {
                None => {
                    return None;
                },
                Some(Err(e)) => {
                    return Some(Err(e));
                },
                Some(Ok(())) => {},
            }
            j += 1;
        }
        Some(Ok(()))
    }

    /// Sets the cells of the rows that are there, and gives the elements for the others; `None`
    /// where a row cannot be numbered or a cell cannot be named or placed.
    fn run_place_rows(&mut self, column: usize, first: u32, rows: &[Vec<String>]) -> (placed:
        Option<Result<Vec<u8>, XlsxError>>)
        ensures
            match rows_placed(
                old(self)@,
                Seq::empty(),
                column,
                first,
                table_views(rows@),
                0,
            ) {
                None => placed is None,
                Some(p) => {
                    &&& final(self)@ == p.sheet
                    &&& match placed {
                        None => false,
                        Some(Ok(pending)) => p.result is Ok && p.pending == pending@,
                        Some(Err(e)) => p.result == Err::<(), ErrorView>(e@),
                    }
                },
            },
    {
        let mut pending: Vec<u8> = Vec::new();
        let mut k: usize = 0;
        let ghost all = table_views(rows@);
        let ghost placing = rows_placed(self@, Seq::empty(), column, first, all, 0);
        let total: usize = rows.len();
        while k < total
            invariant
                k <= total == rows@.len(),
                all == table_views(rows@),
                placing == rows_placed(self@, pending@, column, first, all, k as int),
                placing == rows_placed(old(self)@, Seq::empty(), column, first, all, 0),
            decreases total - k,
        {
            if first > u32::MAX - (k as u32) {
                return None;
            }
            let number: u32 = first + (k as u32);
            if number <= self.last_row {
                match self.run_set_cells(column, number, rows[k].as_slice()) {
                    None => {
                        return None;
                    },
                    Some(Err(e)) => {
                        return Some(Err(e));
                    },
                    Some(Ok(())) => {},
                }
            } else {
                if rows[k].len() > 0 && column > usize::MAX - (rows[k].len() - 1) {
                    return None;
                }
                let cells = table_cells_xml(column, number, rows[k].as_slice());
                let row = row_xml(number, cells.as_slice());
                push_bytes(&mut pending, row.as_slice());
                self.last_row = number;
            }
            k += 1;
        }
        Some(Ok(pending))
    }

    /// Places a table, or gives `None` where a row cannot be numbered or a cell cannot be named or
    /// placed.
    pub(crate) fn run_append_table_at(&mut self, coord: &str, rows: &[Vec<String>]) -> (result:
        Option<Result<(), XlsxError>>)
        ensures
            reached(table_placed(old(self)@, coord@, table_views(rows@)), final(self)@, result),
    {
        let chars = chars_of(coord);
        let digits: usize = digit_start_of(chars.as_slice());
        if digits >= chars.len() {
            return Some(Err(XlsxError::InvalidCoordinate { coord: coord.to_owned() }));
        }
        let letters = coord.substring_char(0, digits);
        let number = coord.substring_char(digits, chars.len());
        assert(letters@ =~= coord@.take(digits as int));
        assert(number@ =~= coord@.skip(digits as int));
        let column: usize = match try_col_index_of_bytes(letters.as_bytes()) {
            None => {
                return None;
            },
            Some(column) => column,
        };
        match parse_u32(number) {
            Err(_) => Some(Err(XlsxError::InvalidCoordinate { coord: coord.to_owned() })),
            Ok(first) => match self.run_place_rows(column, first, rows) {
                None => None,
                Some(Err(e)) => Some(Err(e)),
                Some(Ok(pending)) => Some(self.append_rows(pending.as_slice())),
            },
        }
    }
}

} // verus!
