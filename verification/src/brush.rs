//! Number formats, fonts and fills on ranges of cells.

use vstd::prelude::*;
use vstd::string::*;
use crate::coord::{
    before_colon, cell_name, cell_name_text, column_index, target_of, text_before_colon,
    try_col_index_of_bytes, try_parse_target, Target, TargetView,
};
use crate::error::{ErrorView, XlsxError};
use crate::paint::{
    cell_painted, cells_forced, cells_of_row, column_painted, column_style, row_marked, row_style,
    style_of,
};
use crate::sheet::{Sheet, SheetOutcome, SheetView};
use crate::styles::{
    fill_ensured, font_ensured, run_ensure_fill, run_ensure_font, run_ensure_style, style_ensured,
    style_parts, styles_reached, styles_refused, xf_components, StylesOutcome,
};
use crate::text::text_views;
use crate::xml::{cell_xfs, xml_events};

verus! {

/// A worksheet and the style sheet of its workbook.
pub struct BookView {
    pub sheet: SheetView,
    pub styles: Seq<u8>,
}

/// What an operation makes of a worksheet and a style sheet, and what it returns.
pub struct BookOutcome {
    pub book: BookView,
    pub result: Result<(), ErrorView>,
}

/// An operation that is refused with `error` and leaves the book as it was.
pub open spec fn book_refused(book: BookView, error: ErrorView) -> BookOutcome {
    BookOutcome { book, result: Err(error) }
}

/// What an operation on the worksheet alone makes of a book.
pub open spec fn on_sheet(styles: Seq<u8>, outcome: Option<SheetOutcome>) -> Option<BookOutcome> {
    match outcome {
        None => None,
        Some(o) => Some(
            BookOutcome { book: BookView { sheet: o.sheet, styles }, result: o.result },
        ),
    }
}

/// An outcome holds of what an operation made and returned.
pub open spec fn book_reached(
    outcome: Option<BookOutcome>,
    sheet: SheetView,
    styles: Seq<u8>,
    result: Option<Result<(), XlsxError>>,
) -> bool {
    match outcome {
        None => result is None,
        Some(o) => {
            &&& result is Some
            &&& o.book.sheet == sheet
            &&& o.book.styles == styles
            &&& o.result == crate::error::result_view(result->0)
        },
    }
}

/// What a cell is given: a style as it is, or a font or a fill that takes the place of the one that
/// it has.
#[derive(Clone, Copy)]
pub enum Brush {
    Style(u32),
    Font(u32),
    Fill(u32),
}

/// The font and the fill of a cell that had `font` and `fill`, with the brush used on it.
pub open spec fn brushed_parts(brush: Brush, font: Option<u32>, fill: Option<u32>) -> (
    Option<u32>,
    Option<u32>,
) {
    match brush {
        Brush::Style(_) => (font, fill),
        Brush::Font(id) => (Some(id), fill),
        Brush::Fill(id) => (font, Some(id)),
    }
}

/// What a style sheet becomes that is to hold the style `id`, or the plain one, with the brush used on
/// it, and the number of the style.
pub open spec fn style_brushed(styles: Seq<u8>, id: Option<u32>, brush: Brush) -> Option<
    StylesOutcome,
> {
    let parts = match id {
        Some(style) => style_parts(cell_xfs(xml_events(styles), true), style),
        None => Ok((None, None)),
    };
    match parts {
        Err(e) => Some(styles_refused(styles, e)),
        Ok((old_font, old_fill)) => {
            let (font, fill) = brushed_parts(brush, old_font, old_fill);
            style_ensured(styles, None, font, fill, None)
        },
    }
}

/// What using the brush on the style `id` makes of a book, and what is done with the number of the
/// style that comes of it.
pub open spec fn with_brushed(
    book: BookView,
    id: Result<Option<u32>, ErrorView>,
    brush: Brush,
    then_do: spec_fn(BookView, u32) -> Option<BookOutcome>,
) -> Option<BookOutcome> {
    match id {
        Err(e) => Some(book_refused(book, e)),
        Ok(old) => with_style(book, style_brushed(book.styles, old, brush), then_do),
    }
}

/// What giving the cell `coord` a font or a fill makes of a book: the other part of its style is
/// kept.
pub open spec fn cell_merged(book: BookView, coord: Seq<char>, brush: Brush) -> Option<
    BookOutcome,
> {
    with_brushed(
        book,
        style_of(book.sheet.xml, coord),
        brush,
        |styled: BookView, style: u32|
            on_sheet(styled.styles, cell_painted(styled.sheet, coord, style)),
    )
}

/// What giving the column with index `column` a font or a fill makes of a book: the other part of its
/// style is kept.
pub open spec fn column_merged(book: BookView, column: u32, brush: Brush) -> Option<BookOutcome> {
    with_brushed(
        book,
        column_style(book.sheet.xml, column),
        brush,
        |styled: BookView, style: u32|
            on_sheet(styled.styles, column_painted(styled.sheet, column, style)),
    )
}

/// What giving the cells `names`, from the `i`-th on, a font or a fill makes of a book.
pub open spec fn names_brushed(book: BookView, names: Seq<Seq<char>>, brush: Brush, i: int) -> Option<
    BookOutcome,
>
    decreases names.len() - i,
{
    if i < 0 || i >= names.len() {
        Some(BookOutcome { book, result: Ok(()) })
    } else {
        match cell_merged(book, names[i], brush) {
            None => None,
            Some(outcome) => if outcome.result is Err {
                Some(outcome)
            } else {
                names_brushed(outcome.book, names, brush, i + 1)
            },
        }
    }
}

/// What giving the row `row` a font or a fill makes of a book: the row gets it, and so does each of its
/// cells, and the other part of their styles is kept.
pub open spec fn row_merged(book: BookView, row: u32, brush: Brush) -> Option<BookOutcome> {
    with_brushed(
        book,
        row_style(book.sheet.xml, row),
        brush,
        |styled: BookView, style: u32|
            match row_marked(styled.sheet.xml, row, style) {
                None => None,
                Some(Err(e)) => Some(book_refused(styled, e)),
                Some(Ok(xml)) => {
                    let marked = BookView { sheet: SheetView { xml, ..styled.sheet }, ..styled };
                    match cells_of_row(xml, row) {
                        None => None,
                        Some(Err(e)) => Some(book_refused(marked, e)),
                        Some(Ok(names)) => names_brushed(marked, names, brush, 0),
                    }
                },
            },
    )
}

/// What using the brush on the cell `coord` makes of a book.
pub open spec fn cell_brushed(book: BookView, coord: Seq<char>, brush: Brush) -> Option<
    BookOutcome,
> {
    match brush {
        Brush::Style(style) => on_sheet(book.styles, cell_painted(book.sheet, coord, style)),
        _ => cell_merged(book, coord, brush),
    }
}

/// What using the brush on the cells of row `row`, from column `c` to column `c1`, makes of a book.
pub open spec fn span_brushed(book: BookView, row: u32, c: int, c1: int, brush: Brush) -> Option<
    BookOutcome,
>
    decreases c1 - c + 1,
{
    if c < 0 || c > c1 {
        Some(BookOutcome { book, result: Ok(()) })
    } else {
        match cell_brushed(book, cell_name(c as nat, row as nat), brush) {
            None => None,
            Some(outcome) => if outcome.result is Err {
                Some(outcome)
            } else {
                span_brushed(outcome.book, row, c + 1, c1, brush)
            },
        }
    }
}

/// What using the brush on the cells from column `c0` to column `c1` of the rows `r` to `r1`, row by
/// row, makes of a book.
pub open spec fn rect_brushed(
    book: BookView,
    c0: u32,
    c1: u32,
    r: int,
    r1: int,
    brush: Brush,
) -> Option<BookOutcome>
    decreases r1 - r + 1,
{
    if r < 0 || r > r1 {
        Some(BookOutcome { book, result: Ok(()) })
    } else {
        match span_brushed(book, r as u32, c0 as int, c1 as int, brush) {
            None => None,
            Some(outcome) => if outcome.result is Err {
                Some(outcome)
            } else {
                rect_brushed(outcome.book, c0, c1, r + 1, r1, brush)
            },
        }
    }
}

/// Makes sure that a style sheet holds the style `id` with the brush used on it, and gives its number,
/// or gives `None` where that cannot be done.
fn run_brush_style(styles: &mut Vec<u8>, id: Option<u32>, brush: Brush) -> (style: Option<
    Result<u32, XlsxError>,
>)
    ensures
        styles_reached(style_brushed(old(styles)@, id, brush), final(styles)@, style),
{
    let (old_font, old_fill) = match id {
        Some(style) => match xf_components(styles.as_slice(), style) {
            Err(e) => {
                return Some(Err(e));
            },
            Ok(parts) => parts,
        },
        None => (None, None),
    };
    let (font, fill) = match brush {
        Brush::Style(_) => (old_font, old_fill),
        Brush::Font(id) => (Some(id), old_fill),
        Brush::Fill(id) => (old_font, Some(id)),
    };
    run_ensure_style(styles, None, font, fill, None)
}

/// Gives the cell `coord` a font or a fill, or gives `None` where that cannot be done.
fn run_merge_one(sheet: &mut Sheet, styles: &mut Vec<u8>, coord: &str, brush: Brush) -> (result:
    Option<Result<(), XlsxError>>)
    ensures
        book_reached(
            cell_merged(BookView { sheet: old(sheet)@, styles: old(styles)@ }, coord@, brush),
            final(sheet)@,
            final(styles)@,
            result,
        ),
{
    let id = match sheet.run_cell_style_id(coord) {
        Err(e) => {
            return Some(Err(e));
        },
        Ok(id) => id,
    };
    match run_brush_style(styles, id, brush) {
        None => None,
        Some(Err(e)) => Some(Err(e)),
        Some(Ok(style)) => sheet.run_apply_style_to_cell(coord, style),
    }
}

/// Gives the column with index `column` a font or a fill, or gives `None` where that cannot be done.
fn run_merge_column(sheet: &mut Sheet, styles: &mut Vec<u8>, column: u32, brush: Brush) -> (result:
    Option<Result<(), XlsxError>>)
    ensures
        book_reached(
            column_merged(BookView { sheet: old(sheet)@, styles: old(styles)@ }, column, brush),
            final(sheet)@,
            final(styles)@,
            result,
        ),
{
    let id = match sheet.run_column_style(column) {
        Err(e) => {
            return Some(Err(e));
        },
        Ok(id) => id,
    };
    match run_brush_style(styles, id, brush) {
        None => None,
        Some(Err(e)) => Some(Err(e)),
        Some(Ok(style)) => sheet.run_apply_style_to_column(column, style),
    }
}

/// Gives the cells `names` a font or a fill, or gives `None` where that cannot be done.
fn run_merge_named(
    sheet: &mut Sheet,
    styles: &mut Vec<u8>,
    names: &[String],
    brush: Brush,
) -> (result: Option<Result<(), XlsxError>>)
    ensures
        book_reached(
            names_brushed(
                BookView { sheet: old(sheet)@, styles: old(styles)@ },
                text_views(names@),
                brush,
                0,
            ),
            final(sheet)@,
            final(styles)@,
            result,
        ),
{
    let ghost all = text_views(names@);
    let ghost outcome = names_brushed(
        BookView { sheet: sheet@, styles: styles@ },
        all,
        brush,
        0,
    );
    let mut i: usize = 0;
    while i < names.len()
        invariant
            i <= names@.len(),
            all == text_views(names@),
            outcome == names_brushed(
                BookView { sheet: sheet@, styles: styles@ },
                all,
                brush,
                i as int,
            ),
            outcome == names_brushed(
                BookView { sheet: old(sheet)@, styles: old(styles)@ },
                all,
                brush,
                0,
            ),
        decreases names@.len() - i,
    {
        assert(all[i as int] == names@[i as int]@);
        match run_merge_one(sheet, styles, names[i].as_str(), brush) {
            None => {
                return None;
            },
            Some(Err(e)) => {
                return Some(Err(e));
            },
            Some(Ok(())) => {},
        }
        i += 1;
    }
    Some(Ok(()))
}

/// Gives the row `row` and its cells a font or a fill, or gives `None` where that cannot be done.
fn run_merge_row(sheet: &mut Sheet, styles: &mut Vec<u8>, row: u32, brush: Brush) -> (result:
    Option<Result<(), XlsxError>>)
    ensures
        book_reached(
            row_merged(BookView { sheet: old(sheet)@, styles: old(styles)@ }, row, brush),
            final(sheet)@,
            final(styles)@,
            result,
        ),
{
    let id = match sheet.run_row_style(row) {
        Err(e) => {
            return Some(Err(e));
        },
        Ok(id) => id,
    };
    let style: u32 = match run_brush_style(styles, id, brush) {
        None => {
            return None;
        },
        Some(Err(e)) => {
            return Some(Err(e));
        },
        Some(Ok(style)) => style,
    };
    match sheet.run_mark_row(row, style) {
        None => {
            return None;
        },
        Some(Err(e)) => {
            return Some(Err(e));
        },
        Some(Ok(())) => {},
    }
    match sheet.run_cells_of_row(row) {
        None => None,
        Some(Err(e)) => Some(Err(e)),
        Some(Ok(names)) => run_merge_named(sheet, styles, names.as_slice(), brush),
    }
}

/// Uses the brush on the cell `coord`, or gives `None` where that cannot be done.
fn run_brush_cell(sheet: &mut Sheet, styles: &mut Vec<u8>, coord: &str, brush: Brush) -> (result:
    Option<Result<(), XlsxError>>)
    ensures
        book_reached(
            cell_brushed(BookView { sheet: old(sheet)@, styles: old(styles)@ }, coord@, brush),
            final(sheet)@,
            final(styles)@,
            result,
        ),
{
    match brush {
        Brush::Style(style) => sheet.run_apply_style_to_cell(coord, style),
        _ => run_merge_one(sheet, styles, coord, brush),
    }
}

/// Uses the brush on the cells of row `row`, from column `c0` to column `c1`, or gives `None` where
/// that cannot be done.
fn run_brush_span(
    sheet: &mut Sheet,
    styles: &mut Vec<u8>,
    row: u32,
    c0: u32,
    c1: u32,
    brush: Brush,
) -> (result: Option<Result<(), XlsxError>>)
    ensures
        book_reached(
            span_brushed(
                BookView { sheet: old(sheet)@, styles: old(styles)@ },
                row,
                c0 as int,
                c1 as int,
                brush,
            ),
            final(sheet)@,
            final(styles)@,
            result,
        ),
{
    let ghost outcome = span_brushed(
        BookView { sheet: sheet@, styles: styles@ },
        row,
        c0 as int,
        c1 as int,
        brush,
    );
    let end: u64 = c1 as u64 + 1;
    let mut c: u64 = c0 as u64;
    while c < end
        invariant
            end == c1 + 1,
            outcome == span_brushed(
                BookView { sheet: sheet@, styles: styles@ },
                row,
                c as int,
                c1 as int,
                brush,
            ),
            outcome == span_brushed(
                BookView { sheet: old(sheet)@, styles: old(styles)@ },
                row,
                c0 as int,
                c1 as int,
                brush,
            ),
        decreases end - c,
    {
        let coord = cell_name_text(c as usize, row);
        match run_brush_cell(sheet, styles, coord.as_str(), brush) {
            None => {
                return None;
            },
            Some(Err(e)) => {
                return Some(Err(e));
            },
            Some(Ok(())) => {},
        }
        c += 1;
    }
    Some(Ok(()))
}

/// Uses the brush on the cells of a rectangle, row by row, or gives `None` where that cannot be done.
fn run_brush_rect(
    sheet: &mut Sheet,
    styles: &mut Vec<u8>,
    c0: u32,
    r0: u32,
    c1: u32,
    r1: u32,
    brush: Brush,
) -> (result: Option<Result<(), XlsxError>>)
    ensures
        book_reached(
            rect_brushed(
                BookView { sheet: old(sheet)@, styles: old(styles)@ },
                c0,
                c1,
                r0 as int,
                r1 as int,
                brush,
            ),
            final(sheet)@,
            final(styles)@,
            result,
        ),
{
    let ghost outcome = rect_brushed(
        BookView { sheet: sheet@, styles: styles@ },
        c0,
        c1,
        r0 as int,
        r1 as int,
        brush,
    );
    let end: u64 = r1 as u64 + 1;
    let mut r: u64 = r0 as u64;
    while r < end
        invariant
            end == r1 + 1,
            outcome == rect_brushed(
                BookView { sheet: sheet@, styles: styles@ },
                c0,
                c1,
                r as int,
                r1 as int,
                brush,
            ),
            outcome == rect_brushed(
                BookView { sheet: old(sheet)@, styles: old(styles)@ },
                c0,
                c1,
                r0 as int,
                r1 as int,
                brush,
            ),
        decreases end - r,
    {
        match run_brush_span(sheet, styles, r as u32, c0, c1, brush) {
            None => {
                return None;
            },
            Some(Err(e)) => {
                return Some(Err(e));
            },
            Some(Ok(())) => {},
        }
        r += 1;
    }
    Some(Ok(()))
}

// ---- ranges -------------------------------------------------------------------------------

/// What a style that is ensured makes of a book, and what is done with its number.
pub open spec fn with_style(
    book: BookView,
    ensured: Option<StylesOutcome>,
    then_do: spec_fn(BookView, u32) -> Option<BookOutcome>,
) -> Option<BookOutcome> {
    match ensured {
        None => None,
        Some(e) => match e.result {
            Err(error) => Some(book_refused(BookView { styles: e.styles, ..book }, error)),
            Ok(id) => then_do(BookView { styles: e.styles, ..book }, id),
        },
    }
}

/// What giving the column `column` the number format `fmt` makes of a book: the style goes into the
/// column's tag. `None` also stands for a name that is no column's.
pub open spec fn column_formatted(book: BookView, column: Seq<char>, fmt: Seq<char>) -> Option<
    BookOutcome,
> {
    with_style(
        book,
        style_ensured(book.styles, Some(fmt), None, None, None),
        |formatted: BookView, style: u32|
            match column_index(column) {
                None => None,
                Some(index) => on_sheet(
                    formatted.styles,
                    column_painted(formatted.sheet, index as u32, style),
                ),
            },
    )
}

/// What forcing the number format `fmt` on the column `column` makes of a book: the style goes into
/// the column's tag and into the tag of each of its cells.
pub open spec fn column_forced(book: BookView, column: Seq<char>, fmt: Seq<char>) -> Option<
    BookOutcome,
> {
    match column_formatted(book, column, fmt) {
        None => None,
        Some(formatted) => if formatted.result is Err {
            Some(formatted)
        } else {
            with_style(
                formatted.book,
                style_ensured(formatted.book.styles, Some(fmt), None, None, None),
                |styled: BookView, style: u32|
                    on_sheet(styled.styles, cells_forced(styled.sheet, column, style)),
            )
        },
    }
}

/// What giving the cells of a range the number format `fmt` makes of a book. `None` also stands for
/// a whole row, which cannot be given one.
pub open spec fn range_formatted(book: BookView, range: Seq<char>, fmt: Seq<char>) -> Option<
    BookOutcome,
> {
    with_style(
        book,
        style_ensured(book.styles, Some(fmt), None, None, None),
        |formatted: BookView, style: u32|
            match target_of(range) {
                None => None,
                Some(Err(e)) => Some(book_refused(formatted, e)),
                Some(Ok(TargetView::Cell(coord))) => cell_brushed(
                    formatted,
                    coord,
                    Brush::Style(style),
                ),
                Some(Ok(TargetView::Rect { c0, r0, c1, r1 })) => rect_brushed(
                    formatted,
                    c0,
                    c1,
                    r0 as int,
                    r1 as int,
                    Brush::Style(style),
                ),
                Some(Ok(TargetView::Col(_))) => column_forced(formatted, before_colon(range), fmt),
                Some(Ok(TargetView::Row(_))) => None,
            },
    )
}

/// What using a font or a fill on a range makes of a book. The style sheet gets the plain style first,
/// if it has none.
pub open spec fn range_brushed(book: BookView, range: Seq<char>, brush: Brush) -> Option<
    BookOutcome,
> {
    with_style(
        book,
        style_ensured(book.styles, None, None, None, None),
        |plain: BookView, style: u32|
            match target_of(range) {
                None => None,
                Some(Err(e)) => Some(book_refused(plain, e)),
                Some(Ok(TargetView::Cell(coord))) => cell_merged(plain, coord, brush),
                Some(Ok(TargetView::Row(row))) => row_merged(plain, row, brush),
                Some(Ok(TargetView::Col(column))) => column_merged(plain, column, brush),
                Some(Ok(TargetView::Rect { c0, r0, c1, r1 })) => rect_brushed(
                    plain,
                    c0,
                    c1,
                    r0 as int,
                    r1 as int,
                    brush,
                ),
            },
    )
}

/// What giving a range a font makes of a book.
pub open spec fn font_set(
    book: BookView,
    range: Seq<char>,
    name: Seq<char>,
    size: Seq<char>,
    bold: bool,
    italic: bool,
) -> Option<BookOutcome> {
    with_style(
        book,
        font_ensured(book.styles, name, size, bold, italic),
        |longer: BookView, id: u32| range_brushed(longer, range, Brush::Font(id)),
    )
}

/// What giving a range a fill makes of a book.
pub open spec fn fill_set(book: BookView, range: Seq<char>, rgb: Seq<char>) -> Option<BookOutcome> {
    with_style(
        book,
        fill_ensured(book.styles, rgb),
        |longer: BookView, id: u32| range_brushed(longer, range, Brush::Fill(id)),
    )
}

/// Gives a column a number format, or gives `None` where that cannot be done.
pub(crate) fn run_set_column_number_format(
    sheet: &mut Sheet,
    styles: &mut Vec<u8>,
    column: &str,
    fmt: &str,
) -> (result: Option<Result<(), XlsxError>>)
    ensures
        book_reached(
            column_formatted(
                BookView { sheet: old(sheet)@, styles: old(styles)@ },
                column@,
                fmt@,
            ),
            final(sheet)@,
            final(styles)@,
            result,
        ),
{
    match run_ensure_style(styles, Some(fmt), None, None, None) {
        None => None,
        Some(Err(e)) => Some(Err(e)),
        Some(Ok(style)) => match try_col_index_of_bytes(column.as_bytes()) {
            None => None,
            Some(index) => sheet.run_apply_style_to_column(index as u32, style),
        },
    }
}

/// Forces a number format on a column, or gives `None` where that cannot be done.
pub(crate) fn run_force_column_number_format(
    sheet: &mut Sheet,
    styles: &mut Vec<u8>,
    column: &str,
    fmt: &str,
) -> (result: Option<Result<(), XlsxError>>)
    ensures
        book_reached(
            column_forced(BookView { sheet: old(sheet)@, styles: old(styles)@ }, column@, fmt@),
            final(sheet)@,
            final(styles)@,
            result,
        ),
{
    match run_set_column_number_format(sheet, styles, column, fmt) {
        None => {
            return None;
        },
        Some(Err(e)) => {
            return Some(Err(e));
        },
        Some(Ok(())) => {},
    }
    match run_ensure_style(styles, Some(fmt), None, None, None) {
        None => None,
        Some(Err(e)) => Some(Err(e)),
        Some(Ok(style)) => sheet.run_force_cells(column, style),
    }
}

/// Gives the cells of a range a number format, or gives `None` where that cannot be done.
pub(crate) fn run_set_number_format(
    sheet: &mut Sheet,
    styles: &mut Vec<u8>,
    range: &str,
    fmt: &str,
) -> (result: Option<Result<(), XlsxError>>)
    ensures
        book_reached(
            range_formatted(BookView { sheet: old(sheet)@, styles: old(styles)@ }, range@, fmt@),
            final(sheet)@,
            final(styles)@,
            result,
        ),
{
    let style: u32 = match run_ensure_style(styles, Some(fmt), None, None, None) {
        None => {
            return None;
        },
        Some(Err(e)) => {
            return Some(Err(e));
        },
        Some(Ok(style)) => style,
    };
    match try_parse_target(range) {
        None => None,
        Some(Err(e)) => Some(Err(e)),
        Some(Ok(Target::Cell(coord))) => run_brush_cell(
            sheet,
            styles,
            coord.as_str(),
            Brush::Style(style),
        ),
        Some(Ok(Target::Rect { c0, r0, c1, r1 })) => run_brush_rect(
            sheet,
            styles,
            c0,
            r0,
            c1,
            r1,
            Brush::Style(style),
        ),
        Some(Ok(Target::Col(_))) => {
            let column = text_before_colon(range);
            run_force_column_number_format(sheet, styles, column.as_str(), fmt)
        },
        Some(Ok(Target::Row(_))) => None,
    }
}

/// Uses a font or a fill on a range, or gives `None` where that cannot be done.
fn run_merge_and_apply(
    sheet: &mut Sheet,
    styles: &mut Vec<u8>,
    range: &str,
    brush: Brush,
) -> (result: Option<Result<(), XlsxError>>)
    ensures
        book_reached(
            range_brushed(BookView { sheet: old(sheet)@, styles: old(styles)@ }, range@, brush),
            final(sheet)@,
            final(styles)@,
            result,
        ),
{
    match run_ensure_style(styles, None, None, None, None) {
        None => {
            return None;
        },
        Some(Err(e)) => {
            return Some(Err(e));
        },
        Some(Ok(_)) => {},
    }
    match try_parse_target(range) {
        None => None,
        Some(Err(e)) => Some(Err(e)),
        Some(Ok(Target::Cell(coord))) => run_merge_one(sheet, styles, coord.as_str(), brush),
        Some(Ok(Target::Row(row))) => run_merge_row(sheet, styles, row, brush),
        Some(Ok(Target::Col(column))) => run_merge_column(sheet, styles, column, brush),
        Some(Ok(Target::Rect { c0, r0, c1, r1 })) => run_brush_rect(
            sheet,
            styles,
            c0,
            r0,
            c1,
            r1,
            brush,
        ),
    }
}

/// Gives a range a font, or gives `None` where that cannot be done.
pub(crate) fn run_set_font(
    sheet: &mut Sheet,
    styles: &mut Vec<u8>,
    range: &str,
    name: &str,
    size: &str,
    bold: bool,
    italic: bool,
) -> (result: Option<Result<(), XlsxError>>)
    ensures
        book_reached(
            font_set(
                BookView { sheet: old(sheet)@, styles: old(styles)@ },
                range@,
                name@,
                size@,
                bold,
                italic,
            ),
            final(sheet)@,
            final(styles)@,
            result,
        ),
{
    match run_ensure_font(styles, name, size, bold, italic) {
        None => None,
        Some(Err(e)) => Some(Err(e)),
        Some(Ok(id)) => run_merge_and_apply(sheet, styles, range, Brush::Font(id)),
    }
}

/// Gives a range a fill, or gives `None` where that cannot be done.
pub(crate) fn run_set_fill(sheet: &mut Sheet, styles: &mut Vec<u8>, range: &str, rgb: &str) -> (result:
    Option<Result<(), XlsxError>>)
    ensures
        book_reached(
            fill_set(BookView { sheet: old(sheet)@, styles: old(styles)@ }, range@, rgb@),
            final(sheet)@,
            final(styles)@,
            result,
        ),
{
    match run_ensure_fill(styles, rgb) {
        None => None,
        Some(Err(e)) => Some(Err(e)),
        Some(Ok(id)) => run_merge_and_apply(sheet, styles, range, Brush::Fill(id)),
    }
}

} // verus!
