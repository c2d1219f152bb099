//! The styles of cells, rows and columns in a worksheet.

use vstd::prelude::*;
use vstd::string::*;
use crate::bytes::{
    copy_range, find, find_from, insert, insert_bytes, matches_at, occurs_at, push_bytes, replace,
    replace_bytes, rfind,
};
use crate::error::{ErrorView, XlsxError};
use crate::pattern::{
    column_cells_pattern, find_matches, match_views, regex_matches, row_cells_pattern, Match,
    MatchView,
};
use crate::sheet::{
    cell_start, cell_xml, coord_row, edited, lemma_opens, lemma_row_found, make_row, new_row,
    place_for_row, raised, reached, refused, row_found, row_of, row_opened, row_place, row_start,
    take_row, written_cell, Sheet, SheetOutcome, SheetView,
};
use crate::tags::{
    copy_tag, ends, find_style, find_tag_of, is_ended, stop_of_tag, style_in_tag, tag_at, tag_stop,
    tag_with_attribute, try_insert_or_replace_attr,
};
use crate::text::{
    chars_of, copy_chars, decimal, decimal_text, decode, join3, locate, locate_last, text_from,
    text_of, text_views, uppercase, uppercase_chars, utf8,
};

verus! {

// ---- one cell -----------------------------------------------------------------------------

/// A row whose cell `coord` has a style: it goes into the cell's tag, and a row without the cell gets
/// an empty one at its end. `None` stands for a style without a quote behind it.
pub open spec fn cell_styled(row: Seq<u8>, coord: Seq<char>, style: u32) -> Option<
    Result<Seq<u8>, ErrorView>,
> {
    let number = decimal(style as nat);
    match cell_start(row, coord) {
        None => Some(
            Ok(
                insert(
                    row,
                    row.len() - utf8("</row>"@).len(),
                    utf8("<c r=\""@ + coord + ("\" s=\""@ + number + "\"/>"@)),
                ),
            ),
        ),
        Some(start) => {
            let tag = tag_at(row, start);
            if !is_ended(tag) {
                Some(Err(ErrorView::MalformedXmlTag("<c>"@)))
            } else {
                match tag_with_attribute(tag, " s=\""@, number) {
                    None => None,
                    Some(styled) => Some(Ok(replace(row, start, tag_stop(row, start), styled))),
                }
            }
        },
    }
}

/// What giving the cell `coord` a style makes of a sheet. A row that is not there is made first, with
/// the cell set to nothing. `None` stands for a style without a quote behind it.
pub open spec fn cell_painted(sheet: SheetView, coord: Seq<char>, style: u32) -> Option<
    SheetOutcome,
> {
    match coord_row(coord) {
        None => Some(refused(sheet, ErrorView::InvalidCoordinate(coord))),
        Some(number) => match row_found(sheet.xml, number) {
            Some(Err(e)) => Some(refused(sheet, e)),
            Some(Ok((start, stop))) => match cell_styled(
                row_opened(sheet.xml.subrange(start, stop)),
                coord,
                style,
            ) {
                None => None,
                Some(Err(e)) => Some(refused(sheet, e)),
                Some(Ok(row)) => Some(edited(sheet, replace(sheet.xml, start, stop, row))),
            },
            None => match row_place(sheet.xml, number) {
                None => Some(refused(sheet, ErrorView::XmlTagNotFound("</sheetData>"@))),
                Some(at) => match cell_styled(
                    new_row(number, written_cell(coord, ""@)),
                    coord,
                    style,
                ) {
                    None => None,
                    Some(Err(e)) => Some(refused(sheet, e)),
                    Some(Ok(row)) => Some(edited(raised(sheet, number), insert(sheet.xml, at, row))),
                },
            },
        },
    }
}

/// The style that the cell `coord` has.
pub open spec fn style_of(xml: Seq<u8>, coord: Seq<char>) -> Result<Option<u32>, ErrorView> {
    match coord_row(coord) {
        None => Ok(None),
        Some(number) => match row_found(xml, number) {
            Some(Ok((start, stop))) => {
                let row = row_opened(xml.subrange(start, stop));
                match cell_start(row, coord) {
                    None => Ok(None),
                    Some(at) => style_in_tag(tag_at(row, at), " s=\""@),
                }
            },
            _ => Ok(None),
        },
    }
}

/// Gives the cell `coord` of a row a style, or gives `None` where a style has no quote behind it.
fn style_in_row(row: &mut Vec<u8>, coord: &str, style: u32) -> (done: Option<Result<(), XlsxError>>)
    requires
        utf8("</row>"@).len() <= old(row)@.len(),
    ensures
        match cell_styled(old(row)@, coord@, style) {
            None => done is None,
            Some(Err(e)) => done matches Some(Err(r)) && r@ == e,
            Some(Ok(styled)) => (done matches Some(Ok(_))) && final(row)@ == styled,
        },
{
    proof {
        lemma_opens();
    }
    let number = decimal_text(style as u64);
    let from: usize = stop_of_tag(row.as_slice(), 0);
    let start: usize = match find_tag_of(row.as_slice(), "<c ", coord, from) {
        None => {
            let behind = join3("\" s=\"", number.as_str(), "\"/>");
            let cell = join3("<c r=\"", coord, behind.as_str());
            let at: usize = row.len() - "</row>".len();
            insert_bytes(row, at, cell.as_str().as_bytes());
            return Some(Ok(()));
        },
        Some(start) => start,
    };
    let stop: usize = stop_of_tag(row.as_slice(), start);
    let mut tag = copy_tag(row.as_slice(), start);
    if !ends(tag.as_slice()) {
        return Some(Err(XlsxError::MalformedXmlTag { tag: "<c>".to_owned() }));
    }
    if try_insert_or_replace_attr(&mut tag, " s=\"", number.as_str()).is_none() {
        return None;
    }
    replace_bytes(row, start, stop, tag.as_slice());
    Some(Ok(()))
}

impl Sheet {
    /// Gives the cell `coord` a style, or gives `None` where a style has no quote behind it.
    pub(crate) fn run_apply_style_to_cell(&mut self, coord: &str, style: u32) -> (result: Option<
        Result<(), XlsxError>,
    >)
        ensures
            reached(cell_painted(old(self)@, coord@, style), final(self)@, result),
    {
        let number: u32 = match row_of(coord) {
            None => {
                return Some(Err(XlsxError::InvalidCoordinate { coord: coord.to_owned() }));
            },
            Some(number) => number,
        };
        proof {
            lemma_opens();
            lemma_row_found(self.xml@, number);
        }
        match take_row(self.xml.as_slice(), number) {
            Some(Err(e)) => Some(Err(e)),
            Some(Ok((start, stop, row))) => {
                let mut row = row;
                match style_in_row(&mut row, coord, style) {
                    None => None,
                    Some(Err(e)) => Some(Err(e)),
                    Some(Ok(())) => {
                        replace_bytes(&mut self.xml, start, stop, row.as_slice());
                        Some(Ok(()))
                    },
                }
            },
            None => {
                let at: usize = match place_for_row(self.xml.as_slice(), number) {
                    Some(at) => at,
                    None => {
                        return Some(
                            Err(XlsxError::XmlTagNotFound { tag: "</sheetData>".to_owned() }),
                        );
                    },
                };
                let cell = cell_xml(coord, "");
                let mut row = make_row(number, cell.as_slice());
                match style_in_row(&mut row, coord, style) {
                    None => None,
                    Some(Err(e)) => Some(Err(e)),
                    Some(Ok(())) => {
                        insert_bytes(&mut self.xml, at, row.as_slice());
                        if number > self.last_row {
                            self.last_row = number;
                        }
                        Some(Ok(()))
                    },
                }
            },
        }
    }

    /// The style that the cell `coord` has.
    pub(crate) fn run_cell_style_id(&self, coord: &str) -> (style: Result<Option<u32>, XlsxError>)
        ensures
            style_of(self@.xml, coord@) == crate::error::result_view(style),
    {
        let number: u32 = match row_of(coord) {
            None => {
                return Ok(None);
            },
            Some(number) => number,
        };
        proof {
            lemma_opens();
        }
        match take_row(self.xml.as_slice(), number) {
            Some(Ok((_, _, row))) => {
                let from: usize = stop_of_tag(row.as_slice(), 0);
                match find_tag_of(row.as_slice(), "<c ", coord, from) {
                    None => Ok(None),
                    Some(at) => {
                        let tag = copy_tag(row.as_slice(), at);
                        find_style(tag.as_slice(), " s=\"")
                    },
                }
            },
            _ => Ok(None),
        }
    }
}

// ---- a row --------------------------------------------------------------------------------

/// The style that the row `row` has.
pub open spec fn row_style(xml: Seq<u8>, row: u32) -> Result<Option<u32>, ErrorView> {
    match row_start(xml, row) {
        None => Ok(None),
        Some(start) => style_in_tag(tag_at(xml, start), " s=\""@),
    }
}

/// A sheet whose row `row` carries a style: it goes into the tag of a row that is there, and a row
/// that is not there goes to its place, without cells. `None` stands for a value without a quote
/// behind it.
pub open spec fn row_marked(xml: Seq<u8>, row: u32, style: u32) -> Option<
    Result<Seq<u8>, ErrorView>,
> {
    let number = decimal(style as nat);
    match row_start(xml, row) {
        Some(start) => {
            let tag = tag_at(xml, start);
            if !is_ended(tag) {
                Some(Err(ErrorView::MalformedXmlTag("<row>"@)))
            } else {
                match tag_with_attribute(tag, " s=\""@, number) {
                    None => None,
                    Some(styled) => match tag_with_attribute(styled, " customFormat=\""@, "1"@) {
                        None => None,
                        Some(marked) => Some(Ok(replace(xml, start, tag_stop(xml, start), marked))),
                    },
                }
            }
        },
        None => match row_place(xml, row) {
            None => Some(Err(ErrorView::XmlTagNotFound("</sheetData>"@))),
            Some(at) => Some(
                Ok(
                    insert(
                        xml,
                        at,
                        utf8(
                            "<row r=\""@ + decimal(row as nat) + ("\" s=\""@ + number
                                + "\" customFormat=\"1\"></row>"@),
                        ),
                    ),
                ),
            ),
        },
    }
}

/// The place `at` is in the tag of a cell: the last tag that starts in front of it is one.
pub open spec fn in_cell_tag(xml: Seq<u8>, at: int) -> bool {
    &&& 0 <= at <= xml.len()
    &&& rfind(xml.take(at), utf8("<"@)) matches Some(open) && occurs_at(xml, utf8("<c "@), open)
}

/// The cells that the first `k` of `references` name: the name is what stands between ` r="` and the
/// quote at the end, and a reference outside the tag of a cell is passed over.
pub open spec fn referenced_cells(xml: Seq<u8>, references: Seq<MatchView>, k: int) -> Seq<
    Seq<char>,
>
    decreases k,
{
    if k <= 0 || k > references.len() {
        Seq::empty()
    } else {
        let before = referenced_cells(xml, references, k - 1);
        let text = references[k - 1].text;
        if in_cell_tag(xml, references[k - 1].start) && text.len() >= 5 {
            before.push(text.subrange(4, text.len() - 1))
        } else {
            before
        }
    }
}

/// The cells of the row `row` that a sheet holds, or the error of a document that is not UTF-8. `None`
/// stands for a pattern that is refused.
pub open spec fn cells_of_row(xml: Seq<u8>, row: u32) -> Option<Result<Seq<Seq<char>>, ErrorView>> {
    match text_of(xml) {
        None => Some(Err(ErrorView::Utf8)),
        Some(text) => match regex_matches(row_cells_pattern(row as nat), text) {
            None => None,
            Some(found) => Some(Ok(referenced_cells(xml, found, found.len() as int))),
        },
    }
}

/// Whether the place `at` is in the tag of a cell.
fn is_in_cell_tag(xml: &[u8], at: usize) -> (inside: bool)
    ensures
        inside == in_cell_tag(xml@, at as int),
{
    if at > xml.len() {
        return false;
    }
    let front = copy_range(xml, 0, at);
    assert(front@ =~= xml@.take(at as int));
    match locate_last(front.as_slice(), "<") {
        None => false,
        Some(open) => matches_at(xml, "<c ".as_bytes(), open),
    }
}

/// The cells that `references` name.
pub fn cells_named(xml: &[u8], references: &[Match]) -> (names: Vec<String>)
    ensures
        text_views(names@) == referenced_cells(
            xml@,
            match_views(references@),
            references@.len() as int,
        ),
{
    let ghost all = match_views(references@);
    let mut names: Vec<String> = Vec::new();
    let mut i: usize = 0;
    assert(text_views(names@) =~= Seq::empty());
    while i < references.len()
        invariant
            i <= references@.len(),
            all == match_views(references@),
            text_views(names@) == referenced_cells(xml@, all, i as int),
        decreases references@.len() - i,
    {
        assert(all[i as int] == references@[i as int]@);
        let ghost before = text_views(names@);
        let chars = chars_of(references[i].text.as_str());
        if is_in_cell_tag(xml, references[i].start) && chars.len() >= 5 {
            let name = copy_chars(chars.as_slice(), 4, chars.len() - 1);
            let text = text_from(name.as_slice());
            names.push(text);
            assert(text_views(names@) =~= before.push(text@));
        }
        i += 1;
    }
    names
}

impl Sheet {
    /// The style that the row `row` has.
    pub(crate) fn run_row_style(&self, row: u32) -> (style: Result<Option<u32>, XlsxError>)
        ensures
            row_style(self@.xml, row) == crate::error::result_view(style),
    {
        proof {
            lemma_opens();
        }
        let digits = decimal_text(row as u64);
        match find_tag_of(self.xml.as_slice(), "<row ", digits.as_str(), 0) {
            None => Ok(None),
            Some(start) => {
                let tag = copy_tag(self.xml.as_slice(), start);
                find_style(tag.as_slice(), " s=\"")
            },
        }
    }

    /// Marks the row `row` with a style, or gives `None` where a value has no quote behind it.
    pub(crate) fn run_mark_row(&mut self, row: u32, style: u32) -> (result: Option<
        Result<(), XlsxError>,
    >)
        ensures
            match row_marked(old(self)@.xml, row, style) {
                None => result is None,
                Some(Err(e)) => (result matches Some(Err(r)) && r@ == e) && final(self)@ == old(self)@,
                Some(Ok(xml)) => (result matches Some(Ok(_))) && final(self)@ == (SheetView {
                    xml,
                    ..old(self)@
                }),
            },
    {
        proof {
            lemma_opens();
        }
        let digits = decimal_text(row as u64);
        let number = decimal_text(style as u64);
        if let Some(start) = find_tag_of(self.xml.as_slice(), "<row ", digits.as_str(), 0) {
            let stop: usize = stop_of_tag(self.xml.as_slice(), start);
            let mut tag = copy_tag(self.xml.as_slice(), start);
            if !ends(tag.as_slice()) {
                return Some(Err(XlsxError::MalformedXmlTag { tag: "<row>".to_owned() }));
            }
            if try_insert_or_replace_attr(&mut tag, " s=\"", number.as_str()).is_none() {
                return None;
            }
            if try_insert_or_replace_attr(&mut tag, " customFormat=\"", "1").is_none() {
                return None;
            }
            replace_bytes(&mut self.xml, start, stop, tag.as_slice());
            return Some(Ok(()));
        }
        match place_for_row(self.xml.as_slice(), row) {
            None => Some(Err(XlsxError::XmlTagNotFound { tag: "</sheetData>".to_owned() })),
            Some(at) => {
                let behind = join3("\" s=\"", number.as_str(), "\" customFormat=\"1\"></row>");
                let new_row = join3("<row r=\"", digits.as_str(), behind.as_str());
                insert_bytes(&mut self.xml, at, new_row.as_str().as_bytes());
                Some(Ok(()))
            },
        }
    }

    /// The cells of the row `row` that the sheet holds, or `None` where the pattern for them is
    /// refused.
    pub(crate) fn run_cells_of_row(&self, row: u32) -> (names: Option<
        Result<Vec<String>, XlsxError>,
    >)
        ensures
            match cells_of_row(self@.xml, row) {
                None => names is None,
                Some(Err(e)) => names matches Some(Err(r)) && r@ == e,
                Some(Ok(cells)) => names matches Some(Ok(n)) && text_views(n@) == cells,
            },
    {
        let text = match decode(self.xml.as_slice()) {
            Err(e) => {
                return Some(Err(XlsxError::Utf8(e)));
            },
            Ok(text) => text,
        };
        let digits = decimal_text(row as u64);
        let pattern = join3(" r=\"([A-Z]+)", digits.as_str(), "\"");
        match find_matches(pattern.as_str(), text) {
            Err(_) => None,
            Ok(found) => {
                assert(match_views(found@).len() == found@.len());
                Some(Ok(cells_named(self.xml.as_slice(), found.as_slice())))
            },
        }
    }
}

// ---- a column -----------------------------------------------------------------------------

/// How the tag of the column with number `number` starts.
pub open spec fn column_tag(number: Seq<char>) -> Seq<char> {
    "<col min=\""@ + number + "\" max=\""@ + number + "\""@
}

/// The style that the column with index `column` has.
pub open spec fn column_style(xml: Seq<u8>, column: u32) -> Result<Option<u32>, ErrorView> {
    match find(xml, utf8(column_tag(decimal((column + 1) as nat)))) {
        None => Ok(None),
        Some(at) => style_in_tag(tag_at(xml, at), " style=\""@),
    }
}

/// What giving the column with index `column` a style makes of a sheet: the style of its tag is
/// set, and a column without a tag gets one, first in the list of columns or in a new list in front
/// of the data. `None` stands for an index that cannot grow, a style without a quote behind it, and a
/// list of columns whose tag has no end.
pub open spec fn column_painted(sheet: SheetView, column: u32, style: u32) -> Option<SheetOutcome> {
    if column == u32::MAX {
        None
    } else {
        let value = decimal(style as nat);
        let start = column_tag(decimal((column + 1) as nat));
        let tag = start + (" style=\""@ + value + "\"/>"@);
        match find(sheet.xml, utf8(start)) {
            Some(at) => if !is_ended(tag_at(sheet.xml, at)) {
                Some(refused(sheet, ErrorView::MalformedXmlTag("<col>"@)))
            } else {
                match tag_with_attribute(tag_at(sheet.xml, at), " style=\""@, value) {
                    None => None,
                    Some(styled) => Some(
                        edited(sheet, replace(sheet.xml, at, tag_stop(sheet.xml, at), styled)),
                    ),
                }
            },
            None => match find(sheet.xml, utf8("<cols"@)) {
                Some(cols) => match find_from(sheet.xml, utf8(">"@), cols) {
                    None => None,
                    Some(at) => Some(
                        edited(sheet, insert(sheet.xml, at + utf8(">"@).len(), utf8(tag))),
                    ),
                },
                None => match find(sheet.xml, utf8("<sheetData"@)) {
                    None => Some(refused(sheet, ErrorView::XmlTagNotFound("<sheetData>"@))),
                    Some(at) => Some(
                        edited(
                            sheet,
                            insert(sheet.xml, at, utf8("<cols>"@ + tag + "</cols>"@)),
                        ),
                    ),
                },
            },
        }
    }
}

/// What is left of a document from `last` on, with a style in the tags where the matches from the
/// `i`-th on start. `None` stands for a match that starts before `last`, for a tag without an end
/// and for one that cannot be given a style.
pub open spec fn tags_painted(
    xml: Seq<u8>,
    cells: Seq<MatchView>,
    style: Seq<char>,
    i: int,
    last: int,
) -> Option<Seq<u8>>
    decreases cells.len() - i,
{
    if i < 0 || i >= cells.len() {
        Some(xml.skip(last))
    } else if cells[i].start < last {
        None
    } else {
        match find_from(xml, utf8(">"@), cells[i].start) {
            None => None,
            Some(at) => {
                let end = at + utf8(">"@).len();
                match (
                    tag_with_attribute(xml.subrange(cells[i].start, end), " s=\""@, style),
                    tags_painted(xml, cells, style, i + 1, end),
                ) {
                    (Some(tag), Some(rest)) => Some(
                        xml.subrange(last, cells[i].start) + tag + rest,
                    ),
                    _ => None,
                }
            },
        }
    }
}

/// What giving a style to every cell of the column `column` makes of a sheet. A document that is not
/// UTF-8 is lost. `None` stands for a tag that cannot be given a style.
pub open spec fn cells_forced(sheet: SheetView, column: Seq<char>, style: u32) -> Option<
    SheetOutcome,
> {
    let pattern = column_cells_pattern(uppercase(column));
    match text_of(sheet.xml) {
        None => if regex_matches(pattern, Seq::empty()) is None {
            Some(refused(sheet, ErrorView::Regex))
        } else {
            Some(refused(SheetView { xml: Seq::empty(), ..sheet }, ErrorView::Utf8))
        },
        Some(text) => match regex_matches(pattern, text) {
            None => Some(refused(sheet, ErrorView::Regex)),
            Some(cells) => match tags_painted(sheet.xml, cells, decimal(style as nat), 0, 0) {
                None => None,
                Some(xml) => Some(edited(sheet, xml)),
            },
        },
    }
}

/// The document with a style in the tags where the matches start, or `None` where a match starts
/// within the tag before it, or a tag has no end or cannot be given a style.
pub fn try_paint_tags(xml: &[u8], cells: &[Match], style: &str) -> (painted: Option<Vec<u8>>)
    ensures
        match painted {
            None => tags_painted(xml@, match_views(cells@), style@, 0, 0) is None,
            Some(p) => tags_painted(xml@, match_views(cells@), style@, 0, 0) == Some(p@),
        },
{
    let ghost all = match_views(cells@);
    let ghost whole = tags_painted(xml@, all, style@, 0, 0);
    let total: usize = xml.len();
    let mut out: Vec<u8> = Vec::new();
    let mut last: usize = 0;
    let mut i: usize = 0;
    assert(tags_painted(xml@, all, style@, 0, 0) matches Some(rest) ==> out@ + rest =~= rest);
    while i < cells.len()
        invariant
            i <= cells@.len(),
            last <= total == xml@.len(),
            all == match_views(cells@),
            whole == tags_painted(xml@, all, style@, 0, 0),
            match tags_painted(xml@, all, style@, i as int, last as int) {
                None => whole is None,
                Some(rest) => whole == Some(out@ + rest),
            },
        decreases cells@.len() - i,
    {
        assert(all[i as int] == cells@[i as int]@);
        let start: usize = cells[i].start;
        if start < last || start > total {
            return None;
        }
        let end: usize = match locate(xml, ">", start) {
            None => {
                return None;
            },
            Some(at) => at + ">".len(),
        };
        let mut tag = copy_range(xml, start, end);
        if try_insert_or_replace_attr(&mut tag, " s=\"", style).is_none() {
            return None;
        }
        let ghost before = out@;
        let between = copy_range(xml, last, start);
        push_bytes(&mut out, between.as_slice());
        push_bytes(&mut out, tag.as_slice());
        proof {
            if let Some(rest) = tags_painted(xml@, all, style@, i + 1, end as int) {
                assert(before + (between@ + tag@ + rest) =~= out@ + rest);
            }
        }
        last = end;
        i += 1;
    }
    let rest = copy_range(xml, last, total);
    push_bytes(&mut out, rest.as_slice());
    assert(rest@ =~= xml@.skip(last as int));
    Some(out)
}

impl Sheet {
    /// The style that the column with index `column` has.
    pub(crate) fn run_column_style(&self, column: u32) -> (style: Result<Option<u32>, XlsxError>)
        ensures
            column_style(self@.xml, column) == crate::error::result_view(style),
    {
        let number = decimal_text(column as u64 + 1);
        let both = join3(number.as_str(), "\" max=\"", number.as_str());
        let start = join3("<col min=\"", both.as_str(), "\"");
        assert(start@ =~= column_tag(number@));
        match locate(self.xml.as_slice(), start.as_str(), 0) {
            None => Ok(None),
            Some(at) => {
                let tag = copy_tag(self.xml.as_slice(), at);
                find_style(tag.as_slice(), " style=\"")
            },
        }
    }

    /// Gives the column with index `column` a style, or gives `None` where the index cannot grow, a
    /// style has no quote behind it, or the tag of the list of columns has no end.
    pub(crate) fn run_apply_style_to_column(&mut self, column: u32, style: u32) -> (result: Option<
        Result<(), XlsxError>,
    >)
        ensures
            reached(column_painted(old(self)@, column, style), final(self)@, result),
    {
        if column == u32::MAX {
            return None;
        }
        let number = decimal_text(column as u64 + 1);
        let value = decimal_text(style as u64);
        let both = join3(number.as_str(), "\" max=\"", number.as_str());
        let start = join3("<col min=\"", both.as_str(), "\"");
        assert(start@ =~= column_tag(number@));
        if let Some(at) = locate(self.xml.as_slice(), start.as_str(), 0) {
            let stop: usize = stop_of_tag(self.xml.as_slice(), at);
            let mut tag = copy_tag(self.xml.as_slice(), at);
            if !ends(tag.as_slice()) {
                return Some(Err(XlsxError::MalformedXmlTag { tag: "<col>".to_owned() }));
            }
            if try_insert_or_replace_attr(&mut tag, " style=\"", value.as_str()).is_none() {
                return None;
            }
            replace_bytes(&mut self.xml, at, stop, tag.as_slice());
            return Some(Ok(()));
        }
        let styled = join3(" style=\"", value.as_str(), "\"/>");
        let mut tag = start;
        tag.append(styled.as_str());
        if let Some(cols) = locate(self.xml.as_slice(), "<cols", 0) {
            return match locate(self.xml.as_slice(), ">", cols) {
                None => None,
                Some(at) => {
                    insert_bytes(&mut self.xml, at + ">".len(), tag.as_str().as_bytes());
                    Some(Ok(()))
                },
            };
        }
        match locate(self.xml.as_slice(), "<sheetData", 0) {
            None => Some(Err(XlsxError::XmlTagNotFound { tag: "<sheetData>".to_owned() })),
            Some(at) => {
                let block = join3("<cols>", tag.as_str(), "</cols>");
                insert_bytes(&mut self.xml, at, block.as_str().as_bytes());
                Some(Ok(()))
            },
        }
    }

    /// Gives a style to every cell of the column `column`, or gives `None` where a tag cannot be
    /// given one.
    pub(crate) fn run_force_cells(&mut self, column: &str, style: u32) -> (result: Option<
        Result<(), XlsxError>,
    >)
        ensures
            reached(cells_forced(old(self)@, column@, style), final(self)@, result),
    {
        let chars = chars_of(column);
        let capital = uppercase_chars(chars.as_slice());
        let name = text_from(capital.as_slice());
        let pattern = join3("<c\\b[^>]*\\br=\"", name.as_str(), "[0-9]+\"[^>]*>");
        let value = decimal_text(style as u64);
        let painted = match decode(self.xml.as_slice()) {
            Err(e) => {
                if let Err(e) = find_matches(pattern.as_str(), "") {
                    proof {
                        reveal_strlit("");
                        assert(""@ =~= Seq::<char>::empty());
                    }
                    return Some(Err(XlsxError::Regex(e)));
                }
                Err(e)
            },
            Ok(text) => match find_matches(pattern.as_str(), text) {
                Err(e) => {
                    return Some(Err(XlsxError::Regex(e)));
                },
                Ok(cells) => Ok(
                    try_paint_tags(self.xml.as_slice(), cells.as_slice(), value.as_str()),
                ),
            },
        };
        match painted {
            Err(e) => {
                proof {
                    reveal_strlit("");
                    assert(""@ =~= Seq::<char>::empty());
                }
                self.xml = Vec::new();
                Some(Err(XlsxError::Utf8(e)))
            },
            Ok(None) => None,
            Ok(Some(xml)) => {
                self.xml = xml;
                Some(Ok(()))
            },
        }
    }
}

} // verus!
