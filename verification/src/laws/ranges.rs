//! What the operations on ranges are made of: which steps they take, in which order, and where they stop.

use vstd::prelude::*;
use crate::brush::{
    brushed_parts, cell_brushed, cell_merged, column_forced, column_formatted, column_merged,
    fill_set, font_set, names_brushed, range_brushed, range_formatted, rect_brushed, row_merged,
    span_brushed, style_brushed, BookOutcome, BookView, Brush,
};
use crate::bytes::{find, lemma_find_from_is, lemma_rfind, occurs_at, rfind};
use crate::coord::{before_colon, cell_name, column_index, column_letters, target_of, TargetView};
use crate::error::ErrorView;
use crate::laws::pieces::lemma_byte_at;
use crate::paint::{
    cell_painted, cells_forced, cells_of_row, column_painted, column_style, in_cell_tag,
    referenced_cells, row_marked, row_style, style_of, tags_painted,
};
use crate::pattern::{regex_matches, MatchView};
use crate::sheet::{row_slot, SheetOutcome, SheetView};
use crate::styles::{fill_ensured, font_ensured, style_ensured, style_parts, StylesOutcome};
use crate::tags::{is_ended, lemma_bracket, tag_at, tag_of, tag_with_attribute};
use crate::text::{decimal, lemma_utf8_ascii, uppercase, utf8};
use crate::xml::{cell_xfs, xml_events};

verus! {

// ---- fonts and fills of one cell ----------------------------------------------------------

/// A font takes the place of the font and keeps the fill, a fill takes the place of the fill and keeps
/// the font.
pub proof fn law_brush_parts(id: u32, font: Option<u32>, fill: Option<u32>)
    ensures
        brushed_parts(Brush::Font(id), font, fill) == (Some(id), fill),
        brushed_parts(Brush::Fill(id), font, fill) == (font, Some(id)),
        brushed_parts(Brush::Style(id), font, fill) == (font, fill),
{
}

/// The style that a brush makes of a style with the parts `font` and `fill` is one with the parts that
/// are asked for, without a number format and without an alignment. A style that is not there has no
/// parts.
pub proof fn law_style_brushed(
    styles: Seq<u8>,
    id: Option<u32>,
    new: u32,
    font: Option<u32>,
    fill: Option<u32>,
)
    requires
        match id {
            None => font is None && fill is None,
            Some(style) => style_parts(cell_xfs(xml_events(styles), true), style) == Ok::<
                (Option<u32>, Option<u32>),
                ErrorView,
            >((font, fill)),
        },
    ensures
        style_brushed(styles, id, Brush::Font(new)) == style_ensured(
            styles,
            None,
            Some(new),
            fill,
            None,
        ),
        style_brushed(styles, id, Brush::Fill(new)) == style_ensured(
            styles,
            None,
            font,
            Some(new),
            None,
        ),
{
}

/// A style whose parts cannot be read is not brushed.
pub proof fn law_style_not_brushed(styles: Seq<u8>, id: u32, brush: Brush, error: ErrorView)
    requires
        style_parts(cell_xfs(xml_events(styles), true), id) == Err::<
            (Option<u32>, Option<u32>),
            ErrorView,
        >(error),
    ensures
        style_brushed(styles, Some(id), brush) == Some(
            StylesOutcome { styles, result: Err(error) },
        ),
{
}

/// A cell that is given a font or a fill is painted with the style that the brush makes of the one that
/// it has, and the style sheet is the one with that style.
pub proof fn law_cell_merged(
    book: BookView,
    coord: Seq<char>,
    brush: Brush,
    id: Option<u32>,
    styles: Seq<u8>,
    style: u32,
    sheet: SheetView,
    result: Result<(), ErrorView>,
)
    requires
        !(brush is Style),
        style_of(book.sheet.xml, coord) == Ok::<Option<u32>, ErrorView>(id),
        style_brushed(book.styles, id, brush) == Some(StylesOutcome { styles, result: Ok(style) }),
        cell_painted(book.sheet, coord, style) == Some(SheetOutcome { sheet, result }),
    ensures
        cell_merged(book, coord, brush) == Some(
            BookOutcome { book: BookView { sheet, styles }, result },
        ),
        cell_brushed(book, coord, brush) == cell_merged(book, coord, brush),
{
}

/// A cell that is given a style is painted with it, and the style sheet stays.
pub proof fn law_cell_given_style(
    book: BookView,
    coord: Seq<char>,
    style: u32,
    sheet: SheetView,
    result: Result<(), ErrorView>,
)
    requires
        cell_painted(book.sheet, coord, style) == Some(SheetOutcome { sheet, result }),
    ensures
        cell_brushed(book, coord, Brush::Style(style)) == Some(
            BookOutcome { book: BookView { sheet, styles: book.styles }, result },
        ),
{
}

/// A cell, a column or a row whose style cannot be read gets no font and no fill, and nothing changes.
pub proof fn law_style_not_read(
    book: BookView,
    coord: Seq<char>,
    column: u32,
    row: u32,
    brush: Brush,
    error: ErrorView,
)
    ensures
        style_of(book.sheet.xml, coord) == Err::<Option<u32>, ErrorView>(error) ==> cell_merged(
            book,
            coord,
            brush,
        ) == Some(BookOutcome { book, result: Err(error) }),
        column_style(book.sheet.xml, column) == Err::<Option<u32>, ErrorView>(error)
            ==> column_merged(book, column, brush) == Some(BookOutcome { book, result: Err(error) }),
        row_style(book.sheet.xml, row) == Err::<Option<u32>, ErrorView>(error) ==> row_merged(
            book,
            row,
            brush,
        ) == Some(BookOutcome { book, result: Err(error) }),
{
}

/// A cell, a column or a row whose style cannot be brushed is not painted: the worksheet stays.
pub proof fn law_style_not_made(
    book: BookView,
    coord: Seq<char>,
    column: u32,
    row: u32,
    brush: Brush,
    id: Option<u32>,
    styles: Seq<u8>,
    error: ErrorView,
)
    requires
        style_brushed(book.styles, id, brush) == Some(StylesOutcome { styles, result: Err(error) }),
    ensures
        ({
            let left = Some(
                BookOutcome { book: BookView { sheet: book.sheet, styles }, result: Err(error) },
            );
            &&& style_of(book.sheet.xml, coord) == Ok::<Option<u32>, ErrorView>(id) ==> cell_merged(
                book,
                coord,
                brush,
            ) == left
            &&& column_style(book.sheet.xml, column) == Ok::<Option<u32>, ErrorView>(id)
                ==> column_merged(book, column, brush) == left
            &&& row_style(book.sheet.xml, row) == Ok::<Option<u32>, ErrorView>(id) ==> row_merged(
                book,
                row,
                brush,
            ) == left
        }),
{
}

// ---- columns and rows ---------------------------------------------------------------------

/// A column that is given a font or a fill is painted with the style that the brush makes of the one
/// that it has.
pub proof fn law_column_merged(
    book: BookView,
    column: u32,
    brush: Brush,
    id: Option<u32>,
    styles: Seq<u8>,
    style: u32,
    sheet: SheetView,
    result: Result<(), ErrorView>,
)
    requires
        column_style(book.sheet.xml, column) == Ok::<Option<u32>, ErrorView>(id),
        style_brushed(book.styles, id, brush) == Some(StylesOutcome { styles, result: Ok(style) }),
        column_painted(book.sheet, column, style) == Some(SheetOutcome { sheet, result }),
    ensures
        column_merged(book, column, brush) == Some(
            BookOutcome { book: BookView { sheet, styles }, result },
        ),
{
}

/// A row that is given a font or a fill is marked with the style that the brush makes of the one that
/// it has, and then the brush is used on each of its cells, in order.
pub proof fn law_row_merged(
    book: BookView,
    row: u32,
    brush: Brush,
    id: Option<u32>,
    styles: Seq<u8>,
    style: u32,
    xml: Seq<u8>,
    names: Seq<Seq<char>>,
)
    requires
        row_style(book.sheet.xml, row) == Ok::<Option<u32>, ErrorView>(id),
        style_brushed(book.styles, id, brush) == Some(StylesOutcome { styles, result: Ok(style) }),
        row_marked(book.sheet.xml, row, style) == Some(Ok::<Seq<u8>, ErrorView>(xml)),
        cells_of_row(xml, row) == Some(Ok::<Seq<Seq<char>>, ErrorView>(names)),
    ensures
        row_merged(book, row, brush) == names_brushed(
            BookView { sheet: SheetView { xml, last_row: book.sheet.last_row }, styles },
            names,
            brush,
            0,
        ),
{
}

/// A row that cannot be marked is left, and so are its cells; where its cells cannot be told, the row is
/// marked and they are left.
pub proof fn law_row_not_merged(
    book: BookView,
    row: u32,
    brush: Brush,
    id: Option<u32>,
    styles: Seq<u8>,
    style: u32,
    xml: Seq<u8>,
    error: ErrorView,
)
    requires
        row_style(book.sheet.xml, row) == Ok::<Option<u32>, ErrorView>(id),
        style_brushed(book.styles, id, brush) == Some(StylesOutcome { styles, result: Ok(style) }),
    ensures
        row_marked(book.sheet.xml, row, style) == Some(Err::<Seq<u8>, ErrorView>(error))
            ==> row_merged(book, row, brush) == Some(
            BookOutcome { book: BookView { sheet: book.sheet, styles }, result: Err(error) },
        ),
        row_marked(book.sheet.xml, row, style) == Some(Ok::<Seq<u8>, ErrorView>(xml))
            && cells_of_row(xml, row) == Some(Err::<Seq<Seq<char>>, ErrorView>(error))
            ==> row_merged(book, row, brush) == Some(
            BookOutcome {
                book: BookView { sheet: SheetView { xml, last_row: book.sheet.last_row }, styles },
                result: Err(error),
            },
        ),
{
}

/// A document that is no text has no rows whose cells can be told.
pub proof fn law_cells_of_no_text(xml: Seq<u8>, row: u32)
    requires
        !vstd::utf8::valid_utf8(xml),
    ensures
        cells_of_row(xml, row) == Some(Err::<Seq<Seq<char>>, ErrorView>(ErrorView::Utf8)),
{
}

/// A column without a name takes no number format.
pub proof fn law_column_not_named(
    book: BookView,
    column: Seq<char>,
    fmt: Seq<char>,
    styles: Seq<u8>,
    style: u32,
)
    requires
        style_ensured(book.styles, Some(fmt), None, None, None) == Some(
            StylesOutcome { styles, result: Ok(style) },
        ),
        column_index(column) is None,
    ensures
        column_formatted(book, column, fmt) is None,
{
}

/// A tag that does not end takes no style: nothing changes.
pub proof fn law_open_tag_not_painted(sheet: SheetView, column: u32, row: u32, style: u32)
    ensures
        column < u32::MAX && (find(
            sheet.xml,
            utf8(
                "<col min=\""@ + decimal((column + 1) as nat) + "\" max=\""@ + decimal(
                    (column + 1) as nat,
                ) + "\""@,
            ),
        ) matches Some(at) && !is_ended(tag_at(sheet.xml, at))) ==> column_painted(
            sheet,
            column,
            style,
        ) == Some(SheetOutcome { sheet, result: Err(ErrorView::MalformedXmlTag("<col>"@)) }),
        (tag_of(sheet.xml, "<row "@, decimal(row as nat), 0) matches Some(at) && !is_ended(
            tag_at(sheet.xml, at),
        )) ==> row_marked(sheet.xml, row, style) == Some(
            Err::<Seq<u8>, ErrorView>(ErrorView::MalformedXmlTag("<row>"@)),
        ),
        tag_of(sheet.xml, "<row "@, decimal(row as nat), 0) is None && row_slot(sheet.xml, row, 0) is None
            && rfind(sheet.xml, utf8("</sheetData>"@)) is None ==> row_marked(sheet.xml, row, style)
            == Some(Err::<Seq<u8>, ErrorView>(ErrorView::XmlTagNotFound("</sheetData>"@))),
{
}

/// Two outcomes, one behind the other: the second step starts from what the first one left, and is not
/// taken where the first one fails.
pub open spec fn one_by_one(
    first: Option<BookOutcome>,
    second: spec_fn(BookView) -> Option<BookOutcome>,
) -> Option<BookOutcome> {
    match first {
        None => None,
        Some(outcome) => match outcome.result {
            Ok(_) => second(outcome.book),
            Err(_) => first,
        },
    }
}

/// Using a brush on cells is using it on the first of them and then on the others.
pub proof fn law_names_brushed(
    book: BookView,
    name: Seq<char>,
    names: Seq<Seq<char>>,
    brush: Brush,
)
    ensures
        names_brushed(book, Seq::empty(), brush, 0) == Some(BookOutcome { book, result: Ok(()) }),
        names_brushed(book, seq![name] + names, brush, 0) == one_by_one(
            cell_merged(book, name, brush),
            |left: BookView| names_brushed(left, names, brush, 0),
        ),
{
    let all = seq![name] + names;
    assert(all[0] == name);
    if let Some(outcome) = cell_merged(book, name, brush) {
        lemma_names_from(outcome.book, name, names, brush, 0);
    }
}

/// The cells behind the first.
proof fn lemma_names_from(
    book: BookView,
    name: Seq<char>,
    names: Seq<Seq<char>>,
    brush: Brush,
    i: int,
)
    requires
        0 <= i,
    ensures
        names_brushed(book, seq![name] + names, brush, i + 1) == names_brushed(book, names, brush, i),
    decreases names.len() - i,
{
    let all = seq![name] + names;
    if i < names.len() {
        assert(all[i + 1] == names[i]);
        if let Some(outcome) = cell_merged(book, names[i], brush) {
            lemma_names_from(outcome.book, name, names, brush, i + 1);
        }
    }
}

// ---- rectangles ---------------------------------------------------------------------------

/// Using a brush on the cells of a row is using it on those up to a column and then on those behind it;
/// on the cell of one column it is using it on the cell with that name.
pub proof fn law_span_brushed(book: BookView, row: u32, c: u32, k: int, c1: u32, brush: Brush)
    requires
        c <= k <= c1,
    ensures
        span_brushed(book, row, c as int, c1 as int, brush) == one_by_one(
            span_brushed(book, row, c as int, k, brush),
            |left: BookView| span_brushed(left, row, k + 1, c1 as int, brush),
        ),
        span_brushed(book, row, c as int, c as int, brush) == cell_brushed(
            book,
            column_letters(c as nat) + decimal(row as nat),
            brush,
        ),
    decreases k - c,
{
    let name = column_letters(c as nat) + decimal(row as nat);
    assert(name == cell_name(c as nat, row as nat));
    reveal_with_fuel(span_brushed, 2);
    if let Some(outcome) = cell_brushed(book, name, brush) {
        if c < k {
            law_span_brushed(outcome.book, row, (c + 1) as u32, k, c1, brush);
        }
    }
}

/// Using a brush on a rectangle is using it on the rows up to one and then on those behind it; on one
/// row it is using it on the cells of that row.
#[verifier::spinoff_prover]
#[verifier::rlimit(60)]
pub proof fn law_rows_brushed(
    book: BookView,
    c0: u32,
    c1: u32,
    r: u32,
    k: int,
    r1: u32,
    brush: Brush,
)
    requires
        r <= k <= r1,
    ensures
        rect_brushed(book, c0, c1, r as int, r1 as int, brush) == one_by_one(
            rect_brushed(book, c0, c1, r as int, k, brush),
            |left: BookView| rect_brushed(left, c0, c1, k + 1, r1 as int, brush),
        ),
        rect_brushed(book, c0, c1, r as int, r as int, brush) == span_brushed(
            book,
            r,
            c0 as int,
            c1 as int,
            brush,
        ),
    decreases k - r,
{
    lemma_one_brushed(book, c0, c1, r, brush);
    let first = span_brushed(book, r, c0 as int, c1 as int, brush);
    if r < k {
        if let Some(outcome) = first {
            law_rows_brushed(outcome.book, c0, c1, (r + 1) as u32, k, r1, brush);
        }
    }
}

/// A rectangle of one row.
#[verifier::spinoff_prover]
#[verifier::rlimit(60)]
proof fn lemma_one_brushed(book: BookView, c0: u32, c1: u32, r: u32, brush: Brush)
    ensures
        rect_brushed(book, c0, c1, r as int, r as int, brush) == span_brushed(
            book,
            r,
            c0 as int,
            c1 as int,
            brush,
        ),
{
    let low = r as int;
    assert(low as u32 == r);
    let first = span_brushed(book, low as u32, c0 as int, c1 as int, brush);
    let whole = rect_brushed(book, c0, c1, low, low, brush);
    assert(whole == match first {
        None => None,
        Some(outcome) => if outcome.result is Err {
            Some(outcome)
        } else {
            rect_brushed(outcome.book, c0, c1, low + 1, low, brush)
        },
    });
    lemma_none_brushed(first, c0, c1, low, brush);
}

/// A rectangle without rows.
proof fn lemma_none_brushed(
    first: Option<BookOutcome>,
    c0: u32,
    c1: u32,
    low: int,
    brush: Brush,
)
    ensures
        first matches Some(outcome) ==> (outcome.result is Ok ==> rect_brushed(
            outcome.book,
            c0,
            c1,
            low + 1,
            low,
            brush,
        ) == first),
{
    if let Some(outcome) = first {
        if let Ok(done) = outcome.result {
            assert(done == ());
            assert(outcome.result == Ok::<(), ErrorView>(()));
            assert(outcome == BookOutcome { book: outcome.book, result: Ok(()) });
        }
    }
}

// ---- number formats -----------------------------------------------------------------------

/// A column that is given a number format is painted with a style that has the format and nothing
/// besides.
pub proof fn law_column_formatted(
    book: BookView,
    column: Seq<char>,
    fmt: Seq<char>,
    styles: Seq<u8>,
    style: u32,
    index: usize,
    sheet: SheetView,
    result: Result<(), ErrorView>,
)
    requires
        style_ensured(book.styles, Some(fmt), None, None, None) == Some(
            StylesOutcome { styles, result: Ok(style) },
        ),
        column_index(column) == Some(index),
        column_painted(book.sheet, index as u32, style) == Some(SheetOutcome { sheet, result }),
    ensures
        column_formatted(book, column, fmt) == Some(
            BookOutcome { book: BookView { sheet, styles }, result },
        ),
{
}

/// Forcing a number format on a column is giving it to the column and then the style to every cell.
pub proof fn law_column_forced(
    book: BookView,
    column: Seq<char>,
    fmt: Seq<char>,
    formatted: BookView,
    styles: Seq<u8>,
    style: u32,
    sheet: SheetView,
    result: Result<(), ErrorView>,
)
    requires
        column_formatted(book, column, fmt) == Some(
            BookOutcome { book: formatted, result: Ok(()) },
        ),
        style_ensured(formatted.styles, Some(fmt), None, None, None) == Some(
            StylesOutcome { styles, result: Ok(style) },
        ),
        cells_forced(formatted.sheet, column, style) == Some(SheetOutcome { sheet, result }),
    ensures
        column_forced(book, column, fmt) == Some(
            BookOutcome { book: BookView { sheet, styles }, result },
        ),
{
}

/// A column that cannot be given a number format is not forced.
pub proof fn law_column_not_forced(
    book: BookView,
    column: Seq<char>,
    fmt: Seq<char>,
    left: BookView,
    error: ErrorView,
)
    requires
        column_formatted(book, column, fmt) == Some(
            BookOutcome { book: left, result: Err(error) },
        ),
    ensures
        column_forced(book, column, fmt) == Some(BookOutcome { book: left, result: Err(error) }),
{
}

/// A range that is given a number format: the style with the format is made first, and then given to
/// the cell, to every cell of the rectangle, or to the whole column. A whole row takes none, and a range
/// that is not one is refused.
pub proof fn law_range_formatted(
    book: BookView,
    range: Seq<char>,
    fmt: Seq<char>,
    styles: Seq<u8>,
    style: u32,
)
    requires
        style_ensured(book.styles, Some(fmt), None, None, None) == Some(
            StylesOutcome { styles, result: Ok(style) },
        ),
    ensures
        ({
            let styled = BookView { sheet: book.sheet, styles };
            match target_of(range) {
                Some(Ok(TargetView::Cell(coord))) => range_formatted(book, range, fmt)
                    == cell_brushed(styled, coord, Brush::Style(style)),
                Some(Ok(TargetView::Rect { c0, r0, c1, r1 })) => range_formatted(book, range, fmt)
                    == rect_brushed(styled, c0, c1, r0 as int, r1 as int, Brush::Style(style)),
                Some(Ok(TargetView::Col(_))) => range_formatted(book, range, fmt) == column_forced(
                    styled,
                    before_colon(range),
                    fmt,
                ),
                Some(Ok(TargetView::Row(_))) => range_formatted(book, range, fmt) is None,
                Some(Err(error)) => range_formatted(book, range, fmt) == Some(
                    BookOutcome { book: styled, result: Err(error) },
                ),
                None => range_formatted(book, range, fmt) is None,
            }
        }),
{
}

/// Without a style that has the format nothing is formatted: the worksheet stays.
pub proof fn law_format_not_made(
    book: BookView,
    range: Seq<char>,
    fmt: Seq<char>,
    styles: Seq<u8>,
    error: ErrorView,
)
    requires
        style_ensured(book.styles, Some(fmt), None, None, None) == Some(
            StylesOutcome { styles, result: Err(error) },
        ),
    ensures
        ({
            let left = Some(
                BookOutcome { book: BookView { sheet: book.sheet, styles }, result: Err(error) },
            );
            &&& range_formatted(book, range, fmt) == left
            &&& column_formatted(book, range, fmt) == left
        }),
{
}

// ---- fonts and fills of ranges ------------------------------------------------------------

/// A range that is given a font or a fill: the plain style is made first, and then the brush is used on
/// the cell, on every cell of the rectangle, on the column or on the row. A range that is not one is
/// refused.
pub proof fn law_brush_on_range(
    book: BookView,
    range: Seq<char>,
    brush: Brush,
    styles: Seq<u8>,
    style: u32,
)
    requires
        style_ensured(book.styles, None, None, None, None) == Some(
            StylesOutcome { styles, result: Ok(style) },
        ),
    ensures
        ({
            let plain = BookView { sheet: book.sheet, styles };
            match target_of(range) {
                Some(Ok(TargetView::Cell(coord))) => range_brushed(book, range, brush)
                    == cell_merged(plain, coord, brush),
                Some(Ok(TargetView::Rect { c0, r0, c1, r1 })) => range_brushed(book, range, brush)
                    == rect_brushed(plain, c0, c1, r0 as int, r1 as int, brush),
                Some(Ok(TargetView::Col(column))) => range_brushed(book, range, brush)
                    == column_merged(plain, column, brush),
                Some(Ok(TargetView::Row(row))) => range_brushed(book, range, brush) == row_merged(
                    plain,
                    row,
                    brush,
                ),
                Some(Err(error)) => range_brushed(book, range, brush) == Some(
                    BookOutcome { book: plain, result: Err(error) },
                ),
                None => range_brushed(book, range, brush) is None,
            }
        }),
{
}

/// A range that is given a font or a fill gets the one that is asked for: the font or the fill is made
/// first, and its number is what the cells get.
pub proof fn law_range_set(
    book: BookView,
    range: Seq<char>,
    name: Seq<char>,
    size: Seq<char>,
    bold: bool,
    italic: bool,
    rgb: Seq<char>,
    styles: Seq<u8>,
    id: u32,
)
    ensures
        ({
            let longer = BookView { sheet: book.sheet, styles };
            let made = Some(StylesOutcome { styles, result: Ok(id) });
            &&& font_ensured(book.styles, name, size, bold, italic) == made ==> font_set(
                book,
                range,
                name,
                size,
                bold,
                italic,
            ) == range_brushed(longer, range, Brush::Font(id))
            &&& fill_ensured(book.styles, rgb) == made ==> fill_set(book, range, rgb)
                == range_brushed(longer, range, Brush::Fill(id))
        }),
{
}

/// A font or a fill that cannot be made is given to no cell: the worksheet stays.
pub proof fn law_range_not_set(
    book: BookView,
    range: Seq<char>,
    name: Seq<char>,
    size: Seq<char>,
    bold: bool,
    italic: bool,
    rgb: Seq<char>,
    brush: Brush,
    styles: Seq<u8>,
    error: ErrorView,
)
    ensures
        ({
            let refused = Some(StylesOutcome { styles, result: Err(error) });
            let left = Some(
                BookOutcome { book: BookView { sheet: book.sheet, styles }, result: Err(error) },
            );
            &&& font_ensured(book.styles, name, size, bold, italic) == refused ==> font_set(
                book,
                range,
                name,
                size,
                bold,
                italic,
            ) == left
            &&& fill_ensured(book.styles, rgb) == refused ==> fill_set(book, range, rgb) == left
            &&& style_ensured(book.styles, None, None, None, None) == refused ==> range_brushed(
                book,
                range,
                brush,
            ) == left
        }),
{
}

// ---- every cell of a column ---------------------------------------------------------------

/// A document in pieces: in front of each tag something else, and something behind the last.
pub open spec fn pieced(pieces: Seq<(Seq<u8>, Seq<u8>)>, tail: Seq<u8>) -> Seq<u8>
    decreases pieces.len(),
{
    if pieces.len() == 0 {
        tail
    } else {
        pieces[0].0 + pieces[0].1 + pieced(pieces.skip(1), tail)
    }
}

/// Where the tags of a document in pieces start, if it starts at `from`.
pub open spec fn starts_of(pieces: Seq<(Seq<u8>, Seq<u8>)>, from: int) -> Seq<int>
    decreases pieces.len(),
{
    if pieces.len() == 0 {
        Seq::empty()
    } else {
        seq![from + pieces[0].0.len()] + starts_of(
            pieces.skip(1),
            (from + pieces[0].0.len() + pieces[0].1.len()) as int,
        )
    }
}

/// One start for each tag.
proof fn lemma_starts(pieces: Seq<(Seq<u8>, Seq<u8>)>, from: int)
    ensures
        starts_of(pieces, from).len() == pieces.len(),
    decreases pieces.len(),
{
    if pieces.len() > 0 {
        lemma_starts(
            pieces.skip(1),
            (from + pieces[0].0.len() + pieces[0].1.len()) as int,
        );
    }
}

/// A tag ends with its first `>`.
pub open spec fn is_tag_text(tag: Seq<u8>) -> bool {
    &&& tag.len() > 0
    &&& tag.last() == 62
    &&& forall|i: int| 0 <= i < tag.len() - 1 ==> #[trigger] tag[i] != 62
}

/// Giving a style to the tags of a document changes each tag that a match starts with, and nothing in
/// between.
#[verifier::spinoff_prover]
#[verifier::rlimit(60)]
pub proof fn law_tags_painted(
    pieces: Seq<(Seq<u8>, Seq<u8>)>,
    painted: Seq<(Seq<u8>, Seq<u8>)>,
    tail: Seq<u8>,
    cells: Seq<MatchView>,
    style: Seq<char>,
)
    requires
        cells.len() == pieces.len(),
        painted.len() == pieces.len(),
        forall|i: int| 0 <= i < cells.len() ==> (#[trigger] cells[i]).start == starts_of(pieces, 0)[i],
        forall|i: int|
            0 <= i < pieces.len() ==> is_tag_text((#[trigger] pieces[i]).1) && painted[i].0
                == pieces[i].0 && tag_with_attribute(pieces[i].1, " s=\""@, style) == Some(
                painted[i].1,
            ),
    ensures
        tags_painted(pieced(pieces, tail), cells, style, 0, 0) == Some(pieced(painted, tail)),
{
    let none = Seq::<u8>::empty();
    assert(none + pieced(pieces, tail) =~= pieced(pieces, tail));
    lemma_tags_painted(none, pieces, painted, tail, cells, style, 0);
}

/// The tags from a place on.
#[verifier::spinoff_prover]
#[verifier::rlimit(60)]
proof fn lemma_tags_painted(
    front: Seq<u8>,
    pieces: Seq<(Seq<u8>, Seq<u8>)>,
    painted: Seq<(Seq<u8>, Seq<u8>)>,
    tail: Seq<u8>,
    cells: Seq<MatchView>,
    style: Seq<char>,
    k: int,
)
    requires
        0 <= k,
        cells.len() == k + pieces.len(),
        painted.len() == pieces.len(),
        forall|i: int|
            0 <= i < pieces.len() ==> (#[trigger] cells[k + i]).start == starts_of(
                pieces,
                front.len() as int,
            )[i],
        forall|i: int|
            0 <= i < pieces.len() ==> is_tag_text((#[trigger] pieces[i]).1) && painted[i].0
                == pieces[i].0 && tag_with_attribute(pieces[i].1, " s=\""@, style) == Some(
                painted[i].1,
            ),
    ensures
        tags_painted(front + pieced(pieces, tail), cells, style, k, front.len() as int) == Some(
            pieced(painted, tail),
        ),
    decreases pieces.len(),
{
    let xml = front + pieced(pieces, tail);
    if pieces.len() == 0 {
        assert(xml.skip(front.len() as int) =~= tail);
    } else {
        let gap = pieces[0].0;
        let tag = pieces[0].1;
        let rest = pieced(pieces.skip(1), tail);
        let next = front + gap + tag;
        let start = (front.len() + gap.len()) as int;
        let bracket = utf8(">"@);
        lemma_bracket();
        assert(is_tag_text(tag));
        assert(xml =~= next + rest);
        assert(cells[k + 0].start == start);
        let at = start + tag.len() - 1;
        assert forall|p: int| start <= p < at implies !#[trigger] occurs_at(xml, bracket, p) by {
            if occurs_at(xml, bracket, p) {
                lemma_byte_at(xml, bracket, p, 0);
                assert(xml[p] == tag[p - start]);
            }
        }
        assert(xml.subrange(at, at + 1) =~= bracket);
        lemma_find_from_is(xml, bracket, start, at);
        assert(xml.subrange(start, at + 1) =~= tag);
        assert(xml.subrange(front.len() as int, start) =~= gap);
        let others = pieces.skip(1);
        let done = painted.skip(1);
        lemma_starts(others, next.len() as int);
        assert(starts_of(pieces, front.len() as int) == seq![start] + starts_of(
            others,
            next.len() as int,
        ));
        assert forall|i: int| 0 <= i < others.len() implies (#[trigger] cells[k + 1 + i]).start
            == starts_of(others, next.len() as int)[i] by {
            assert(cells[k + (i + 1)].start == starts_of(pieces, front.len() as int)[i + 1]);
        }
        assert forall|i: int| 0 <= i < others.len() implies is_tag_text((#[trigger] others[i]).1)
            && done[i].0 == others[i].0 && tag_with_attribute(others[i].1, " s=\""@, style) == Some(
            done[i].1,
        ) by {
            assert(others[i] == pieces[i + 1]);
            assert(done[i] == painted[i + 1]);
        }
        lemma_tags_painted(next, others, done, tail, cells, style, k + 1);
        assert(painted[0].0 == gap);
    }
}

/// The cells of a column are those that the pattern of the column finds, and their tags get the style:
/// nothing else of the sheet changes. A document that is no text is lost.
pub proof fn law_cells_forced(
    text: Seq<char>,
    last_row: u32,
    column: Seq<char>,
    style: u32,
    cells: Seq<MatchView>,
    painted: Seq<u8>,
)
    requires
        regex_matches("<c\\b[^>]*\\br=\""@ + uppercase(column) + "[0-9]+\"[^>]*>"@, text) == Some(cells),
        tags_painted(utf8(text), cells, decimal(style as nat), 0, 0) == Some(painted),
    ensures
        cells_forced(SheetView { xml: utf8(text), last_row }, column, style) == Some(
            SheetOutcome { sheet: SheetView { xml: painted, last_row }, result: Ok(()) },
        ),
{
    vstd::utf8::encode_utf8_valid_utf8(text);
    vstd::utf8::encode_utf8_decode_utf8(text);
}

/// A column that makes no pattern takes no style, and nothing changes.
pub proof fn law_cells_not_forced(text: Seq<char>, last_row: u32, column: Seq<char>, style: u32)
    requires
        regex_matches("<c\\b[^>]*\\br=\""@ + uppercase(column) + "[0-9]+\"[^>]*>"@, text) is None,
    ensures
        ({
            let sheet = SheetView { xml: utf8(text), last_row };
            cells_forced(sheet, column, style) == Some(
                SheetOutcome { sheet, result: Err(ErrorView::Regex) },
            )
        }),
{
    vstd::utf8::encode_utf8_valid_utf8(text);
    vstd::utf8::encode_utf8_decode_utf8(text);
}

// ---- the cells of a row -------------------------------------------------------------------

/// The cells of a row are those that the pattern of the row finds references to.
pub proof fn law_cells_of_row(text: Seq<char>, row: u32, found: Seq<MatchView>)
    requires
        regex_matches(" r=\"([A-Z]+)"@ + decimal(row as nat) + "\""@, text) == Some(found),
    ensures
        cells_of_row(utf8(text), row) == Some(
            Ok::<Seq<Seq<char>>, ErrorView>(
                referenced_cells(utf8(text), found, found.len() as int),
            ),
        ),
{
    vstd::utf8::encode_utf8_valid_utf8(text);
    vstd::utf8::encode_utf8_decode_utf8(text);
}

/// The cells that references name are those of the references in front and then that of the last, where
/// it stands in the tag of a cell.
pub proof fn law_reference(
    xml: Seq<u8>,
    front: Seq<MatchView>,
    last: MatchView,
    name: Seq<char>,
)
    requires
        last.text == " r=\""@ + name + "\""@,
    ensures
        ({
            let before = referenced_cells(xml, front, front.len() as int);
            let all = referenced_cells(xml, front.push(last), (front.len() + 1) as int);
            all == (if in_cell_tag(xml, last.start) {
                before + seq![name]
            } else {
                before
            })
        }),
        referenced_cells(xml, Seq::empty(), 0) == Seq::<Seq<char>>::empty(),
{
    let all = front.push(last);
    reveal_strlit(" r=\"");
    reveal_strlit("\"");
    lemma_references(xml, front, last, front.len() as int);
    assert(all[all.len() - 1] == last);
    let text = last.text;
    assert(text.subrange(4, text.len() - 1) =~= name);
    let before = referenced_cells(xml, front, front.len() as int);
    assert(before.push(name) =~= before + seq![name]);
    assert(text.len() >= 5);
}

/// The references in front of the last.
proof fn lemma_references(xml: Seq<u8>, front: Seq<MatchView>, last: MatchView, k: int)
    requires
        0 <= k <= front.len(),
    ensures
        referenced_cells(xml, front.push(last), k) == referenced_cells(xml, front, k),
    decreases k,
{
    if k > 0 {
        lemma_references(xml, front, last, k - 1);
        assert(front.push(last)[k - 1] == front[k - 1]);
    }
}

/// A place behind which no tag has started since.
proof fn lemma_last_start(a: Seq<u8>, tag: Seq<u8>, b: Seq<u8>)
    requires
        tag.len() > 0,
        tag[0] == 60,
        forall|i: int| 0 < i < tag.len() ==> #[trigger] tag[i] != 60,
    ensures
        rfind((a + tag + b).take((a.len() + tag.len()) as int), utf8("<"@)) == Some(a.len() as int),
{
    let less = utf8("<"@);
    assert(less =~= seq![60u8]) by {
        reveal_strlit("<");
        lemma_utf8_ascii("<"@);
    }
    let n = a.len() as int;
    let front = (a + tag + b).take((a.len() + tag.len()) as int);
    assert(front =~= a + tag);
    assert(front.subrange(n, n + 1) =~= less);
    lemma_rfind(front, less);
    assert(occurs_at(front, less, n));
    let p = rfind(front, less)->0;
    if p != n {
        assert(occurs_at(front, less, p));
        lemma_byte_at(front, less, p, 0);
        assert(front[p] == tag[p - n]);
    }
}

/// A place is in the tag of a cell where the last `<` in front of it starts one, and is not where that
/// starts another tag.
pub proof fn law_in_cell_tag(a: Seq<u8>, inside: Seq<u8>, other: u8, b: Seq<u8>)
    requires
        forall|i: int| 0 <= i < inside.len() ==> #[trigger] inside[i] != 60,
        other != 60,
        other != 99,
    ensures
        in_cell_tag(a + utf8("<c "@) + inside + b, (a.len() + 3 + inside.len()) as int),
        !in_cell_tag(a + seq![60u8, other] + inside + b, (a.len() + 2 + inside.len()) as int),
{
    let open = utf8("<c "@);
    assert(open =~= seq![60u8, 99u8, 32u8]) by {
        reveal_strlit("<c ");
        lemma_utf8_ascii("<c "@);
    }
    let n = a.len() as int;
    let xml = a + open + inside + b;
    let tag = open + inside;
    assert(xml =~= a + tag + b);
    lemma_last_start(a, tag, b);
    assert(xml.subrange(n, n + 3) =~= open);
    let apart = seq![60u8, other] + inside;
    let whole = a + seq![60u8, other] + inside + b;
    assert(whole =~= a + apart + b);
    lemma_last_start(a, apart, b);
    if occurs_at(whole, open, n) {
        lemma_byte_at(whole, open, n, 1);
        assert(whole[n + 1] == other);
    }
}

} // verus!
