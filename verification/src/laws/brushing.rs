//! Fonts and fills that cells are given one after the other.

use vstd::prelude::*;
use crate::brush::{
    brushed_parts, cell_brushed, fill_set, font_set, range_brushed, rect_brushed, span_brushed,
    BookView, Brush,
};
use crate::coord::{cell_name, target_of, TargetView};
use crate::error::ErrorView;
use crate::laws::bodies::cell_text;
use crate::laws::cells::body_of;
use crate::laws::formats::{has_parts, is_read, law_style_asked_for};
use crate::laws::styling::{
    can_style, keeps_content, law_style_keeps_other_cells, law_style_read_back,
    lemma_restyled_again,
};
use crate::paint::style_of;
use crate::sheet::{coord_row, SheetView};
use crate::styles::{fill_ensured, font_ensured, style_ensured, style_parts, styles_given};
use crate::xml::{cell_xfs, xml_events};

verus! {

// ---- what a cell has ----------------------------------------------------------------------

/// The cell `coord` of a book has the font and the fill that are asked for.
pub open spec fn cell_has(
    book: BookView,
    coord: Seq<char>,
    font: Option<u32>,
    fill: Option<u32>,
) -> bool {
    (font is None && fill is None) || (style_of(book.sheet.xml, coord) matches Ok(id) && has_parts(
        cell_xfs(xml_events(book.styles), true),
        id,
        font,
        fill,
    ))
}

/// The cell `coord`, where a sheet has it, stands in another one too, but for the style in its tag.
pub open spec fn keeps_value(before: SheetView, after: SheetView, coord: Seq<char>) -> bool {
    coord_row(coord) matches Some(number) ==> keeps_content(
        body_of(before.xml, number),
        body_of(after.xml, number),
        coord,
    )
}

// ---- one cell -----------------------------------------------------------------------------

/// The style that is made for a cell, where one is, is read with its font and its fill.
pub open spec fn cell_is_read(book: BookView, coord: Seq<char>, brush: Brush) -> bool {
    style_of(book.sheet.xml, coord) matches Ok(id) ==> {
        let parts = match id {
            Some(style) => style_parts(cell_xfs(xml_events(book.styles), true), style),
            None => Ok((None, None)),
        };
        parts matches Ok((font, fill)) ==> is_read(
            book.styles,
            None,
            brushed_parts(brush, font, fill).0,
            brushed_parts(brush, font, fill).1,
        )
    }
}

/// What a brush leaves of a cell: the cell has the part that was given, where it is `among` the cells
/// that it was given to, and the parts that it had, and holds what it held.
#[verifier::opaque]
pub open spec fn is_brushed(
    before: BookView,
    after: BookView,
    brush: Brush,
    among: bool,
    coord: Seq<char>,
    font: Option<u32>,
    fill: Option<u32>,
) -> bool {
    let parts = if among {
        brushed_parts(brush, font, fill)
    } else {
        (font, fill)
    };
    &&& cell_has(after, coord, parts.0, parts.1)
    &&& keeps_value(before.sheet, after.sheet, coord)
    &&& can_style(after.sheet, coord)
}

/// A cell that is given a font or a fill has it and keeps the other part of its style and what it
/// holds; every other cell keeps its font, its fill and what it holds.
pub proof fn law_cell_brushed(
    book: BookView,
    name: Seq<char>,
    brush: Brush,
    coord: Seq<char>,
    font: Option<u32>,
    fill: Option<u32>,
)
    requires
        !(brush is Style),
        can_style(book.sheet, name),
        can_style(book.sheet, coord),
        cell_is_read(book, name, brush),
        cell_has(book, coord, font, fill),
    ensures
        cell_brushed(book, name, brush) matches Some(outcome) ==> (outcome.result is Ok
            ==> is_brushed(book, outcome.book, brush, coord == name, coord, font, fill)),
{
    reveal(is_brushed);
    if let Some(outcome) = cell_brushed(book, name, brush) {
        if outcome.result is Ok {
            let id = style_of(book.sheet.xml, name)->Ok_0;
            let xfs = cell_xfs(xml_events(book.styles), true);
            let old = match id {
                Some(style) => style_parts(xfs, style)->Ok_0,
                None => (None, None),
            };
            let asked = brushed_parts(brush, old.0, old.1);
            let made = style_ensured(book.styles, None, asked.0, asked.1, None)->0;
            let style = made.result->Ok_0;
            law_style_asked_for(book.styles, None, asked.0, asked.1);
            law_style_read_back(book.sheet, name, style);
            if coord != name {
                law_style_keeps_other_cells(book.sheet, name, style, coord);
                if !(font is None && fill is None) {
                    assert(has_parts(xfs, style_of(book.sheet.xml, coord)->Ok_0, font, fill));
                }
            }
        }
    }
}

// ---- rectangles ---------------------------------------------------------------------------

/// Every cell from column `c0` to column `c1` of the rows `r0` to `r1` can be given a style.
#[verifier::opaque]
pub open spec fn can_style_all(sheet: SheetView, c0: int, c1: int, r0: int, r1: int) -> bool {
    forall|c: int, r: int|
        c0 <= c <= c1 && r0 <= r <= r1 ==> can_style(
            sheet,
            #[trigger] cell_name(c as nat, r as nat),
        )
}

/// `coord` is a cell from column `c0` to column `c1` of the rows `r0` to `r1`.
#[verifier::opaque]
pub open spec fn is_among(coord: Seq<char>, c0: int, c1: int, r0: int, r1: int) -> bool {
    exists|c: int, r: int|
        c0 <= c <= c1 && r0 <= r <= r1 && coord == #[trigger] cell_name(c as nat, r as nat)
}

/// The styles that are made for the cells of row `row`, from column `c` to column `c1`, are read with
/// their fonts and fills.
pub open spec fn span_is_read(book: BookView, row: u32, c: int, c1: int, brush: Brush) -> bool
    decreases c1 - c + 1,
{
    0 <= c <= c1 ==> {
        let name = cell_name(c as nat, row as nat);
        &&& cell_is_read(book, name, brush)
        &&& cell_brushed(book, name, brush) matches Some(outcome) ==> (outcome.result is Ok
            ==> span_is_read(outcome.book, row, c + 1, c1, brush))
    }
}

/// The styles that are made for the cells from column `c0` to column `c1` of the rows `r` to `r1` are
/// read with their fonts and fills.
pub open spec fn rect_is_read(book: BookView, c0: u32, c1: u32, r: int, r1: int, brush: Brush) -> bool
    decreases r1 - r + 1,
{
    0 <= r <= r1 ==> {
        &&& span_is_read(book, r as u32, c0 as int, c1 as int, brush)
        &&& span_brushed(book, r as u32, c0 as int, c1 as int, brush) matches Some(outcome) ==> (
        outcome.result is Ok ==> rect_is_read(outcome.book, c0, c1, r + 1, r1, brush))
    }
}

/// One cell that is given a font or a fill leaves the others such that they can be.
proof fn lemma_cell_step(book: BookView, name: Seq<char>, brush: Brush, c0: int, c1: int, r0: int, r1: int)
    requires
        !(brush is Style),
        can_style(book.sheet, name),
        can_style_all(book.sheet, c0, c1, r0, r1),
        cell_is_read(book, name, brush),
    ensures
        cell_brushed(book, name, brush) matches Some(outcome) ==> (outcome.result is Ok
            ==> can_style_all(outcome.book.sheet, c0, c1, r0, r1)),
{
    reveal(can_style_all);
    reveal(is_brushed);
    if let Some(outcome) = cell_brushed(book, name, brush) {
        if outcome.result is Ok {
            assert forall|c: int, r: int| c0 <= c <= c1 && r0 <= r <= r1 implies can_style(
                outcome.book.sheet,
                #[trigger] cell_name(c as nat, r as nat),
            ) by {
                law_cell_brushed(book, name, brush, cell_name(c as nat, r as nat), None, None);
            }
        }
    }
}

/// One of the cells of a rectangle.
proof fn lemma_one_of_all(sheet: SheetView, c: int, c0: int, c1: int, r: int, r0: int, r1: int)
    requires
        can_style_all(sheet, c0, c1, r0, r1),
        c0 <= c <= c1,
        r0 <= r <= r1,
    ensures
        can_style(sheet, cell_name(c as nat, r as nat)),
{
    reveal(can_style_all);
}

/// A cell that a brush was used on, or not, can be given a style again.
proof fn lemma_brushed_cell(
    before: BookView,
    after: BookView,
    brush: Brush,
    among: bool,
    coord: Seq<char>,
    font: Option<u32>,
    fill: Option<u32>,
)
    requires
        is_brushed(before, after, brush, among, coord, font, fill),
    ensures
        can_style(after.sheet, coord),
        among ==> cell_has(
            after,
            coord,
            brushed_parts(brush, font, fill).0,
            brushed_parts(brush, font, fill).1,
        ),
        !among ==> cell_has(after, coord, font, fill),
{
    reveal(is_brushed);
}

/// A cell that no brush was used on.
proof fn lemma_not_brushed(
    book: BookView,
    brush: Brush,
    coord: Seq<char>,
    font: Option<u32>,
    fill: Option<u32>,
)
    requires
        can_style(book.sheet, coord),
        cell_has(book, coord, font, fill),
    ensures
        is_brushed(book, book, brush, false, coord, font, fill),
{
    reveal(is_brushed);
}

/// No cell is among none.
proof fn lemma_none_among(coord: Seq<char>, c0: int, c1: int, r0: int, r1: int)
    requires
        c0 > c1 || r0 > r1,
    ensures
        !is_among(coord, c0, c1, r0, r1),
{
    reveal(is_among);
}

/// A brush that is used twice.
proof fn lemma_brushed_again(
    before: BookView,
    middle: BookView,
    after: BookView,
    brush: Brush,
    first: bool,
    second: bool,
    coord: Seq<char>,
    font: Option<u32>,
    fill: Option<u32>,
)
    requires
        is_brushed(before, middle, brush, first, coord, font, fill),
        ({
            let parts = if first {
                brushed_parts(brush, font, fill)
            } else {
                (font, fill)
            };
            is_brushed(middle, after, brush, second, coord, parts.0, parts.1)
        }),
    ensures
        is_brushed(before, after, brush, first || second, coord, font, fill),
{
    reveal(is_brushed);
    let number = coord_row(coord)->0;
    if let Some(k) = cell_text(body_of(before.sheet.xml, number), coord) {
        let n = cell_text(body_of(middle.sheet.xml, number), coord)->0;
        let o = cell_text(body_of(after.sheet.xml, number), coord)->0;
        lemma_restyled_again(k, n, o);
    }
}

/// What a brush leaves of a cell when it is used on the cells of a row.
#[verifier::spinoff_prover]
#[verifier::rlimit(60)]
proof fn lemma_span_brushed(
    book: BookView,
    row: u32,
    c: int,
    c0: int,
    c1: int,
    r0: int,
    r1: int,
    brush: Brush,
    coord: Seq<char>,
    font: Option<u32>,
    fill: Option<u32>,
)
    requires
        !(brush is Style),
        0 <= c0 <= c,
        r0 <= row <= r1,
        can_style_all(book.sheet, c0, c1, r0, r1),
        can_style(book.sheet, coord),
        span_is_read(book, row, c, c1, brush),
        cell_has(book, coord, font, fill),
    ensures
        span_brushed(book, row, c, c1, brush) matches Some(outcome) ==> (outcome.result is Ok ==> {
            let among = is_among(coord, c, c1, row as int, row as int);
            &&& is_brushed(book, outcome.book, brush, among, coord, font, fill)
            &&& can_style_all(outcome.book.sheet, c0, c1, r0, r1)
        }),
    decreases c1 - c + 1,
{
    lemma_not_brushed(book, brush, coord, font, fill);
    if c > c1 {
        lemma_none_among(coord, c, c1, row as int, row as int);
    } else {
        let name = cell_name(c as nat, row as nat);
        lemma_one_of_all(book.sheet, c, c0, c1, row as int, r0, r1);
        if let Some(first) = cell_brushed(book, name, brush) {
            if first.result is Ok {
                law_cell_brushed(book, name, brush, coord, font, fill);
                lemma_cell_step(book, name, brush, c0, c1, r0, r1);
                let parts = if coord == name {
                    brushed_parts(brush, font, fill)
                } else {
                    (font, fill)
                };
                lemma_brushed_cell(book, first.book, brush, coord == name, coord, font, fill);
                lemma_span_brushed(
                    first.book,
                    row,
                    c + 1,
                    c0,
                    c1,
                    r0,
                    r1,
                    brush,
                    coord,
                    parts.0,
                    parts.1,
                );
                lemma_among_rest(coord, row, c, c1);
                if let Some(outcome) = span_brushed(first.book, row, c + 1, c1, brush) {
                    if outcome.result is Ok {
                        lemma_brushed_again(
                            book,
                            first.book,
                            outcome.book,
                            brush,
                            coord == name,
                            is_among(coord, c + 1, c1, row as int, row as int),
                            coord,
                            font,
                            fill,
                        );
                    }
                }
            }
        }
    }
}

/// A cell among those of a row is the first one or among the rest.
proof fn lemma_among_rest(coord: Seq<char>, row: u32, c: int, c1: int)
    requires
        0 <= c <= c1,
    ensures
        is_among(coord, c, c1, row as int, row as int) <==> (coord == cell_name(
            c as nat,
            row as nat,
        ) || is_among(coord, c + 1, c1, row as int, row as int)),
{
    reveal(is_among);
    if is_among(coord, c, c1, row as int, row as int) {
        let (i, r) = choose|i: int, r: int|
            c <= i <= c1 && row <= r <= row && coord == #[trigger] cell_name(i as nat, r as nat);
        assert(i == c || is_among(coord, c + 1, c1, row as int, row as int));
    }
    if coord == cell_name(c as nat, row as nat) {
        let r = row as int;
        assert(coord == cell_name(c as nat, r as nat));
    }
    if is_among(coord, c + 1, c1, row as int, row as int) {
        let (i, r) = choose|i: int, r: int|
            c + 1 <= i <= c1 && row <= r <= row && coord == #[trigger] cell_name(
                i as nat,
                r as nat,
            );
        assert(coord == cell_name(i as nat, r as nat));
    }
}

/// A cell among those of some rows is in the first one or among those of the rest.
proof fn lemma_among_rows(coord: Seq<char>, c0: int, c1: int, r: int, r1: int)
    requires
        0 <= r <= r1,
    ensures
        is_among(coord, c0, c1, r, r1) <==> (is_among(coord, c0, c1, r, r) || is_among(
            coord,
            c0,
            c1,
            r + 1,
            r1,
        )),
{
    reveal(is_among);
    if is_among(coord, c0, c1, r, r1) {
        let (i, k) = choose|i: int, k: int|
            c0 <= i <= c1 && r <= k <= r1 && coord == #[trigger] cell_name(i as nat, k as nat);
        assert(k == r || k >= r + 1);
    }
    if is_among(coord, c0, c1, r, r) {
        let (i, k) = choose|i: int, k: int|
            c0 <= i <= c1 && r <= k <= r && coord == #[trigger] cell_name(i as nat, k as nat);
        assert(coord == cell_name(i as nat, k as nat));
    }
    if is_among(coord, c0, c1, r + 1, r1) {
        let (i, k) = choose|i: int, k: int|
            c0 <= i <= c1 && r + 1 <= k <= r1 && coord == #[trigger] cell_name(
                i as nat,
                k as nat,
            );
        assert(coord == cell_name(i as nat, k as nat));
    }
}

/// What a brush leaves of a cell when it is used on the rows of a rectangle from `r` on.
#[verifier::spinoff_prover]
#[verifier::rlimit(60)]
proof fn lemma_rows_brushed(
    book: BookView,
    c0: u32,
    c1: u32,
    r0: int,
    r: int,
    r1: int,
    brush: Brush,
    coord: Seq<char>,
    font: Option<u32>,
    fill: Option<u32>,
)
    requires
        !(brush is Style),
        0 <= r0 <= r,
        r1 <= u32::MAX,
        can_style_all(book.sheet, c0 as int, c1 as int, r0, r1),
        can_style(book.sheet, coord),
        rect_is_read(book, c0, c1, r, r1, brush),
        cell_has(book, coord, font, fill),
    ensures
        rect_brushed(book, c0, c1, r, r1, brush) matches Some(outcome) ==> (outcome.result is Ok ==> {
            let among = is_among(coord, c0 as int, c1 as int, r, r1);
            &&& is_brushed(book, outcome.book, brush, among, coord, font, fill)
            &&& can_style_all(outcome.book.sheet, c0 as int, c1 as int, r0, r1)
        }),
    decreases r1 - r + 1,
{
    lemma_not_brushed(book, brush, coord, font, fill);
    if r > r1 {
        lemma_none_among(coord, c0 as int, c1 as int, r, r1);
    } else {
        let row = r as u32;
        if let Some(first) = span_brushed(book, row, c0 as int, c1 as int, brush) {
            if first.result is Ok {
                let among = is_among(coord, c0 as int, c1 as int, r, r);
                let parts = if among {
                    brushed_parts(brush, font, fill)
                } else {
                    (font, fill)
                };
                lemma_span_brushed(
                    book,
                    row,
                    c0 as int,
                    c0 as int,
                    c1 as int,
                    r0,
                    r1,
                    brush,
                    coord,
                    font,
                    fill,
                );
                lemma_brushed_cell(book, first.book, brush, among, coord, font, fill);
                lemma_rows_brushed(
                    first.book,
                    c0,
                    c1,
                    r0,
                    r + 1,
                    r1,
                    brush,
                    coord,
                    parts.0,
                    parts.1,
                );
                lemma_among_rows(coord, c0 as int, c1 as int, r, r1);
                if let Some(outcome) = rect_brushed(first.book, c0, c1, r + 1, r1, brush) {
                    if outcome.result is Ok {
                        lemma_brushed_again(
                            book,
                            first.book,
                            outcome.book,
                            brush,
                            among,
                            is_among(coord, c0 as int, c1 as int, r + 1, r1),
                            coord,
                            font,
                            fill,
                        );
                    }
                }
            }
        }
    }
}

/// Every cell of a rectangle that is given a font or a fill has it and keeps the other part of its
/// style and what it holds; every other cell keeps its font, its fill and what it holds.
pub proof fn law_rectangle_brushed(
    book: BookView,
    c0: u32,
    c1: u32,
    r0: u32,
    r1: u32,
    brush: Brush,
    coord: Seq<char>,
    font: Option<u32>,
    fill: Option<u32>,
)
    requires
        !(brush is Style),
        can_style_all(book.sheet, c0 as int, c1 as int, r0 as int, r1 as int),
        can_style(book.sheet, coord),
        rect_is_read(book, c0, c1, r0 as int, r1 as int, brush),
        cell_has(book, coord, font, fill),
    ensures
        rect_brushed(book, c0, c1, r0 as int, r1 as int, brush) matches Some(outcome) ==> (
        outcome.result is Ok ==> {
            let among = is_among(coord, c0 as int, c1 as int, r0 as int, r1 as int);
            &&& is_brushed(book, outcome.book, brush, among, coord, font, fill)
            &&& can_style_all(outcome.book.sheet, c0 as int, c1 as int, r0 as int, r1 as int)
        }),
{
    lemma_rows_brushed(
        book,
        c0,
        c1,
        r0 as int,
        r0 as int,
        r1 as int,
        brush,
        coord,
        font,
        fill,
    );
}

// ---- ranges -------------------------------------------------------------------------------

/// The plain style and those that are made for the cells of a rectangle are read with their fonts and
/// fills.
pub open spec fn range_is_read(
    book: BookView,
    c0: u32,
    c1: u32,
    r0: u32,
    r1: u32,
    brush: Brush,
) -> bool {
    &&& is_read(book.styles, None, None, None)
    &&& style_ensured(book.styles, None, None, None, None) matches Some(plain) ==> (plain.result is Ok
        ==> rect_is_read(
        BookView { styles: plain.styles, ..book },
        c0,
        c1,
        r0 as int,
        r1 as int,
        brush,
    ))
}

/// What a brush leaves of a cell when it is used on a range that is a rectangle.
pub proof fn law_range_brushed(
    book: BookView,
    range: Seq<char>,
    c0: u32,
    c1: u32,
    r0: u32,
    r1: u32,
    brush: Brush,
    coord: Seq<char>,
    font: Option<u32>,
    fill: Option<u32>,
)
    requires
        !(brush is Style),
        target_of(range) == Some(
            Ok::<TargetView, ErrorView>(TargetView::Rect { c0, r0, c1, r1 }),
        ),
        can_style_all(book.sheet, c0 as int, c1 as int, r0 as int, r1 as int),
        can_style(book.sheet, coord),
        range_is_read(book, c0, c1, r0, r1, brush),
        cell_has(book, coord, font, fill),
    ensures
        range_brushed(book, range, brush) matches Some(outcome) ==> (outcome.result is Ok ==> {
            let among = is_among(coord, c0 as int, c1 as int, r0 as int, r1 as int);
            &&& is_brushed(book, outcome.book, brush, among, coord, font, fill)
            &&& can_style_all(outcome.book.sheet, c0 as int, c1 as int, r0 as int, r1 as int)
        }),
{
    if let Some(outcome) = range_brushed(book, range, brush) {
        if outcome.result is Ok {
            let made = style_ensured(book.styles, None, None, None, None)->0;
            let plain = BookView { styles: made.styles, ..book };
            law_style_asked_for(book.styles, None, None, None);
            if !(font is None && fill is None) {
                assert(has_parts(
                    cell_xfs(xml_events(book.styles), true),
                    style_of(book.sheet.xml, coord)->Ok_0,
                    font,
                    fill,
                ));
            }
            law_rectangle_brushed(plain, c0, c1, r0, r1, brush, coord, font, fill);
            lemma_same_sheet(book, plain, outcome.book, brush, coord, font, fill, is_among(
                coord,
                c0 as int,
                c1 as int,
                r0 as int,
                r1 as int,
            ));
        }
    }
}

/// What a brush leaves of a cell depends on the sheet, not on the style sheet before.
proof fn lemma_same_sheet(
    book: BookView,
    plain: BookView,
    after: BookView,
    brush: Brush,
    coord: Seq<char>,
    font: Option<u32>,
    fill: Option<u32>,
    among: bool,
)
    requires
        book.sheet == plain.sheet,
        is_brushed(plain, after, brush, among, coord, font, fill),
    ensures
        is_brushed(book, after, brush, among, coord, font, fill),
{
    reveal(is_brushed);
}

/// Every cell of a rectangle that was given a font and then a fill has both, and is what it was but for
/// the style in its tag. `font` and `fill` are their numbers; the styles that are made are read with
/// their fonts and fills, and the fill itself adds no style.
pub proof fn law_font_then_fill(
    book: BookView,
    range: Seq<char>,
    c0: u32,
    c1: u32,
    r0: u32,
    r1: u32,
    name: Seq<char>,
    size: Seq<char>,
    bold: bool,
    italic: bool,
    rgb: Seq<char>,
    font: u32,
    fill: u32,
    with_font: Seq<u8>,
    with_fill: Seq<u8>,
    coord: Seq<char>,
)
    requires
        target_of(range) == Some(
            Ok::<TargetView, ErrorView>(TargetView::Rect { c0, r0, c1, r1 }),
        ),
        is_among(coord, c0 as int, c1 as int, r0 as int, r1 as int),
        can_style_all(book.sheet, c0 as int, c1 as int, r0 as int, r1 as int),
        font_ensured(book.styles, name, size, bold, italic) == Some(styles_given(with_font, font)),
        range_is_read(
            BookView { styles: with_font, ..book },
            c0,
            c1,
            r0,
            r1,
            Brush::Font(font),
        ),
        font_set(book, range, name, size, bold, italic) matches Some(first) && first.result is Ok
            && fill_ensured(first.book.styles, rgb) == Some(styles_given(with_fill, fill))
            && cell_xfs(xml_events(with_fill), true) == cell_xfs(
            xml_events(first.book.styles),
            true,
        ) && range_is_read(
            BookView { styles: with_fill, ..first.book },
            c0,
            c1,
            r0,
            r1,
            Brush::Fill(fill),
        ),
    ensures
        ({
            let first = font_set(book, range, name, size, bold, italic)->0.book;
            fill_set(first, range, rgb) matches Some(second) ==> (second.result is Ok ==> {
                &&& cell_has(second.book, coord, Some(font), Some(fill))
                &&& keeps_value(book.sheet, second.book.sheet, coord)
            })
        }),
{
    let first = font_set(book, range, name, size, bold, italic)->0.book;
    let start = BookView { styles: with_font, ..book };
    let middle = BookView { styles: with_fill, ..first };
    assert(can_style(book.sheet, coord)) by {
        reveal(is_among);
        reveal(can_style_all);
    }
    law_range_brushed(start, range, c0, c1, r0, r1, Brush::Font(font), coord, None, None);
    lemma_brushed_cell(start, first, Brush::Font(font), true, coord, None, None);
    assert(cell_has(middle, coord, Some(font), None));
    law_range_brushed(
        middle,
        range,
        c0,
        c1,
        r0,
        r1,
        Brush::Fill(fill),
        coord,
        Some(font),
        None,
    );
    if let Some(second) = fill_set(first, range, rgb) {
        if second.result is Ok {
            lemma_brushed_cell(
                middle,
                second.book,
                Brush::Fill(fill),
                true,
                coord,
                Some(font),
                None,
            );
            lemma_values_kept(start, first, middle, second.book, font, fill, coord);
        }
    }
}

/// What a cell holds after a font and a fill.
proof fn lemma_values_kept(
    start: BookView,
    first: BookView,
    middle: BookView,
    second: BookView,
    font: u32,
    fill: u32,
    coord: Seq<char>,
)
    requires
        first.sheet == middle.sheet,
        is_brushed(start, first, Brush::Font(font), true, coord, None, None),
        is_brushed(middle, second, Brush::Fill(fill), true, coord, Some(font), None),
    ensures
        keeps_value(start.sheet, second.sheet, coord),
{
    reveal(is_brushed);
    let number = coord_row(coord)->0;
    if let Some(k) = cell_text(body_of(start.sheet.xml, number), coord) {
        let n = cell_text(body_of(first.sheet.xml, number), coord)->0;
        let o = cell_text(body_of(second.sheet.xml, number), coord)->0;
        lemma_restyled_again(k, n, o);
    }
}

} // verus!
