//! What the operations hand back, and what they leave of an editor.

use vstd::prelude::*;
use crate::brush::{book_reached, BookOutcome, BookView};
use crate::edit::{
    book_edited, book_of, ended, first_cell, frame_written, sheet_edited, sheet_overwritten,
    style_given, tried,
};
use crate::editor::{EditorOutcome, EditorView, XlsxEditor};
use crate::error::{result_view, ErrorView, XlsxError};
use crate::frame::{column_names, frame_columns, headed_table, unquoted};
use crate::merge::sheet_cleared;
use crate::sheet::{reached, table_placed, Sheet, SheetOutcome, SheetView};
use crate::styles::{styles_reached, StylesOutcome};

verus! {

// ---- results ------------------------------------------------------------------------------

/// A result and its view say the same: both succeed, or both fail with the same error.
pub proof fn law_result_view<T>(result: Result<T, XlsxError>)
    ensures
        match result {
            Ok(value) => result_view(result) == Ok::<T, ErrorView>(value),
            Err(error) => result_view(result) == Err::<T, ErrorView>(error@),
        },
{
}

/// The view of an error names what the error names.
pub proof fn law_error_view(text: String)
    ensures
        (XlsxError::FileNotFound { file: text })@ == ErrorView::FileNotFound(text@),
        (XlsxError::XmlTagNotFound { tag: text })@ == ErrorView::XmlTagNotFound(text@),
        (XlsxError::SheetNotFound { name: text })@ == ErrorView::SheetNotFound(text@),
        (XlsxError::SheetAlreadyExists { name: text })@ == ErrorView::SheetAlreadyExists(text@),
        (XlsxError::InvalidCoordinate { coord: text })@ == ErrorView::InvalidCoordinate(text@),
        (XlsxError::InvalidRange { range: text })@ == ErrorView::InvalidRange(text@),
        (XlsxError::MalformedXmlTag { tag: text })@ == ErrorView::MalformedXmlTag(text@),
        (XlsxError::AttributeNotFound { attribute: text })@ == ErrorView::AttributeNotFound(text@),
        (XlsxError::NoColumnsSupplied)@ == ErrorView::NoColumnsSupplied,
        (XlsxError::InvalidRangeOrder)@ == ErrorView::InvalidRangeOrder,
{
}

/// Errors from outside stay apart from each other and from the errors that name something.
pub proof fn law_outside_error_view(error: XlsxError)
    ensures
        error is Parse <==> error@ is Parse,
        error is Utf8 <==> error@ is Utf8,
        error is Regex <==> error@ is Regex,
{
}

/// An operation on a worksheet that reaches an outcome leaves the worksheet and returns the result of
/// that outcome; without an outcome it returns nothing.
pub proof fn law_reached(
    sheet: SheetView,
    result: Result<(), ErrorView>,
    left: SheetView,
    returned: Option<Result<(), XlsxError>>,
)
    ensures
        reached(Some(SheetOutcome { sheet, result }), left, returned) <==> (left == sheet && (
        returned matches Some(r) && match r {
            Ok(_) => result is Ok,
            Err(e) => result == Err::<(), ErrorView>(e@),
        })),
        reached(None, left, returned) <==> returned is None,
{
    if let Some(Ok(done)) = returned {
        assert(done == ());
    }
    if let Ok(done) = result {
        assert(done == ());
    }
}

/// An operation on a style sheet that reaches an outcome leaves the style sheet and returns the result of
/// that outcome; without an outcome it returns nothing.
pub proof fn law_styles_reached(
    styles: Seq<u8>,
    result: Result<u32, ErrorView>,
    left: Seq<u8>,
    returned: Option<Result<u32, XlsxError>>,
)
    ensures
        styles_reached(Some(StylesOutcome { styles, result }), left, returned) <==> (left == styles
            && (returned matches Some(r) && match r {
            Ok(id) => result == Ok::<u32, ErrorView>(id),
            Err(e) => result == Err::<u32, ErrorView>(e@),
        })),
        styles_reached(None, left, returned) <==> returned is None,
{
}

/// An operation on a worksheet and a style sheet that reaches an outcome leaves both as that outcome says
/// and returns its result; without an outcome it returns nothing.
pub proof fn law_book_reached(
    book: BookView,
    result: Result<(), ErrorView>,
    sheet: SheetView,
    styles: Seq<u8>,
    returned: Option<Result<(), XlsxError>>,
)
    ensures
        book_reached(Some(BookOutcome { book, result }), sheet, styles, returned) <==> (book.sheet
            == sheet && book.styles == styles && (returned matches Some(r) && match r {
            Ok(_) => result is Ok,
            Err(e) => result == Err::<(), ErrorView>(e@),
        })),
        book_reached(None, sheet, styles, returned) <==> returned is None,
{
    if let Some(Ok(done)) = returned {
        assert(done == ());
    }
    if let Ok(done) = result {
        assert(done == ());
    }
}

/// An operation on an editor that ends with an outcome leaves the editor and returns the result of that
/// outcome.
pub proof fn law_ended(
    editor: EditorView,
    result: Result<(), ErrorView>,
    left: EditorView,
    returned: Result<(), XlsxError>,
)
    ensures
        ended(Some(EditorOutcome { editor, result }), left, returned) <==> (left == editor && match returned {
            Ok(_) => result is Ok,
            Err(e) => result == Err::<(), ErrorView>(e@),
        }),
        !ended(None, left, returned),
{
    if let Ok(done) = returned {
        assert(done == ());
    }
    if let Ok(done) = result {
        assert(done == ());
    }
}

/// An operation that is tried ends with its outcome, and without one it changes nothing.
pub proof fn law_tried(
    outcome: Option<EditorOutcome>,
    before: EditorView,
    left: EditorView,
    returned: Result<(), XlsxError>,
)
    ensures
        tried(outcome, before, left, Some(returned)) <==> ended(outcome, left, returned),
        tried(outcome, before, left, None) <==> outcome is None && left == before,
{
}

/// A style that is given leaves everything of an editor but the style sheet.
pub proof fn law_style_given(
    styles: Seq<u8>,
    result: Result<u32, ErrorView>,
    before: EditorView,
    left: EditorView,
    returned: Result<u32, XlsxError>,
)
    ensures
        style_given(Some(StylesOutcome { styles, result }), before, left, returned) ==> {
            &&& left.styles == styles
            &&& left.sheet == before.sheet
            &&& left.sheet_path == before.sheet_path
            &&& left.workbook == before.workbook
            &&& left.rels == before.rels
            &&& left.new_files == before.new_files
            &&& match returned {
                Ok(id) => result == Ok::<u32, ErrorView>(id),
                Err(e) => result == Err::<u32, ErrorView>(e@),
            }
        },
        !style_given(None, before, left, returned),
{
}

// ---- what is left of an editor ------------------------------------------------------------

/// An operation on the worksheet leaves everything else of an editor.
pub proof fn law_sheet_edited(
    editor: EditorView,
    sheet: SheetView,
    result: Result<(), ErrorView>,
)
    ensures
        sheet_edited(editor, Some(SheetOutcome { sheet, result })) matches Some(outcome) && {
            &&& outcome.result == result
            &&& outcome.editor.sheet == sheet
            &&& outcome.editor.styles == editor.styles
            &&& outcome.editor.sheet_path == editor.sheet_path
            &&& outcome.editor.workbook == editor.workbook
            &&& outcome.editor.rels == editor.rels
            &&& outcome.editor.new_files == editor.new_files
        },
        sheet_edited(editor, None) is None,
{
}

/// An operation on the worksheet and the style sheet leaves everything else of an editor.
pub proof fn law_book_edited(editor: EditorView, book: BookView, result: Result<(), ErrorView>)
    ensures
        book_edited(editor, Some(BookOutcome { book, result })) matches Some(outcome) && {
            &&& outcome.result == result
            &&& outcome.editor.sheet == book.sheet
            &&& outcome.editor.styles == book.styles
            &&& outcome.editor.sheet_path == editor.sheet_path
            &&& outcome.editor.workbook == editor.workbook
            &&& outcome.editor.rels == editor.rels
            &&& outcome.editor.new_files == editor.new_files
        },
        book_edited(editor, None) is None,
        book_of(editor).sheet == editor.sheet,
        book_of(editor).styles == editor.styles,
{
}

/// The view of an editor holds what the editor holds.
pub proof fn law_editor_view(editor: XlsxEditor, sheet: Sheet, i: int)
    ensures
        editor@.sheet_path == editor.sheet_path@,
        editor@.sheet.xml == editor.sheet.xml@,
        editor@.sheet.last_row == editor.sheet.last_row,
        editor@.styles == editor.styles_xml@,
        editor@.workbook == editor.workbook_xml@,
        editor@.rels == editor.rels_xml@,
        editor@.new_files.len() == editor.new_files@.len(),
        0 <= i < editor.new_files@.len() ==> editor@.new_files[i].name == editor.new_files@[i].name@
            && editor@.new_files[i].content == editor.new_files@[i].content@,
        sheet@.xml == sheet.xml@,
        sheet@.last_row == sheet.last_row,
{
}

// ---- tables over what was there -----------------------------------------------------------

/// Overwriting a worksheet is clearing it and then placing the table; where it cannot be cleared,
/// nothing is placed.
pub proof fn law_overwritten(
    sheet: SheetView,
    coord: Seq<char>,
    table: Seq<Seq<Seq<char>>>,
    cleared: SheetView,
    error: ErrorView,
)
    ensures
        sheet_cleared(sheet) == Some(SheetOutcome { sheet: cleared, result: Ok(()) })
            ==> sheet_overwritten(sheet, coord, table) == table_placed(cleared, coord, table),
        sheet_cleared(sheet) == Some(SheetOutcome { sheet: cleared, result: Err(error) })
            ==> sheet_overwritten(sheet, coord, table) == Some(
            SheetOutcome { sheet: cleared, result: Err(error) },
        ),
{
}

/// A text without its quotes: each part without its quotes, where a quote is left out and any other
/// character stays.
pub proof fn law_unquoted(a: Seq<char>, b: Seq<char>, c: char)
    ensures
        unquoted(a + b) == unquoted(a) + unquoted(b),
        unquoted(Seq::empty()) == Seq::<char>::empty(),
        unquoted(seq!['"']) == Seq::<char>::empty(),
        c != '"' ==> unquoted(seq![c]) == seq![c],
    decreases b.len(),
{
    reveal_with_fuel(unquoted, 2);
    assert(seq!['"'].drop_last() =~= Seq::<char>::empty());
    assert(seq![c].drop_last() =~= Seq::<char>::empty());
    assert(Seq::<char>::empty().push(c) =~= seq![c]);
    if b.len() == 0 {
        assert(a + b =~= a);
        assert(unquoted(a) + unquoted(b) =~= unquoted(a));
    } else {
        law_unquoted(a, b.drop_last(), c);
        assert((a + b).drop_last() =~= a + b.drop_last());
        assert((a + b).last() == b.last());
        assert(unquoted(a + b) =~= unquoted(a) + unquoted(b));
    }
}

/// The table for a data frame has the names of the columns on top, and below them each cell in its place,
/// without its quotes.
pub proof fn law_headed_table(names: Seq<Seq<char>>, shown: Seq<Seq<Seq<char>>>, r: int, c: int)
    ensures
        headed_table(names, shown).len() == shown.len() + 1,
        headed_table(names, shown)[0] == names,
        0 <= r < shown.len() ==> headed_table(names, shown)[r + 1].len() == shown[r].len(),
        0 <= r < shown.len() && 0 <= c < shown[r].len() ==> headed_table(names, shown)[r + 1][c]
            == unquoted(shown[r][c]),
{
}

/// Writing a data frame is overwriting the worksheet with the names of its columns and, below them, its
/// cells as they are shown, from the cell that was asked for, or from the first one. Nothing else of the
/// editor changes.
pub proof fn law_frame_written(
    editor: EditorView,
    df: polars_core::frame::DataFrame,
    shown: Seq<Seq<Seq<char>>>,
    start: &str,
    sheet: SheetView,
    result: Result<(), ErrorView>,
)
    ensures
        ({
            let names = Seq::new(frame_columns(df).len(), |c: int| frame_columns(df)[c].0);
            let table = headed_table(names, shown);
            let written = Some(SheetOutcome { sheet, result });
            let after = Some(EditorOutcome { editor: EditorView { sheet, ..editor }, result });
            &&& sheet_overwritten(editor.sheet, "A1"@, table) == written ==> frame_written(
                editor,
                df,
                shown,
                None,
            ) == after
            &&& sheet_overwritten(editor.sheet, start@, table) == written ==> frame_written(
                editor,
                df,
                shown,
                Some(start),
            ) == after
        }),
{
    let names = Seq::new(frame_columns(df).len(), |c: int| frame_columns(df)[c].0);
    assert(names =~= column_names(frame_columns(df)));
}

/// A table without a place starts at the first cell.
pub proof fn law_first_cell(start: &str)
    ensures
        first_cell(None) == "A1"@,
        first_cell(Some(start)) == start@,
{
}

} // verus!
