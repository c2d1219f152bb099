//! The operations of the editor.

use vstd::prelude::*;
use vstd::string::*;
use crate::added::worksheet_added;
use crate::brush::{
    column_forced, column_formatted, fill_set, font_set, range_formatted,
    run_force_column_number_format, run_set_column_number_format, run_set_fill, run_set_font,
    run_set_number_format, BookOutcome, BookView,
};
use crate::bytes::copy_bytes;
use crate::editor::{EditorOutcome, EditorView, XlsxEditor};
use crate::error::{ErrorView, XlsxError};
use crate::frame::{column_names, frame_columns, frame_table, headed_table, shows};
use crate::merge::{cells_merged, sheet_cleared};
use crate::query::{
    column_list, last_row_in, last_row_of_columns, last_rows_in, try_last_rows_of_range,
};
use crate::sheet::{
    cell_set, reached, row_appended, table_appended, table_placed, Sheet, SheetOutcome, SheetView,
};
use crate::styles::{
    optional_align, optional_str, run_ensure_style, style_ensured, AlignSpec, StylesOutcome,
};
use crate::text::{table_views, text_views};
use crate::xml::{events_of, filled_cells, filled_cells_among, xml_events};

verus! {

/// The worksheet and the style sheet of an editor.
pub open spec fn book_of(editor: EditorView) -> BookView {
    BookView { sheet: editor.sheet, styles: editor.styles }
}

/// What an operation on the worksheet makes of an editor.
pub open spec fn sheet_edited(editor: EditorView, outcome: Option<SheetOutcome>) -> Option<
    EditorOutcome,
> {
    match outcome {
        None => None,
        Some(o) => Some(
            EditorOutcome { editor: EditorView { sheet: o.sheet, ..editor }, result: o.result },
        ),
    }
}

/// What an operation on the worksheet and the style sheet makes of an editor.
pub open spec fn book_edited(editor: EditorView, outcome: Option<BookOutcome>) -> Option<
    EditorOutcome,
> {
    match outcome {
        None => None,
        Some(o) => Some(
            EditorOutcome {
                editor: EditorView { sheet: o.book.sheet, styles: o.book.styles, ..editor },
                result: o.result,
            },
        ),
    }
}

/// An outcome holds of what an operation made and returned.
pub open spec fn ended(
    outcome: Option<EditorOutcome>,
    editor: EditorView,
    result: Result<(), XlsxError>,
) -> bool {
    &&& outcome is Some
    &&& outcome->0.editor == editor
    &&& outcome->0.result == crate::error::result_view(result)
}

/// An outcome holds of what an operation made and returned; where there is none, nothing changed.
pub open spec fn tried(
    outcome: Option<EditorOutcome>,
    before: EditorView,
    editor: EditorView,
    result: Option<Result<(), XlsxError>>,
) -> bool {
    match result {
        None => outcome is None && editor == before,
        Some(r) => ended(outcome, editor, r),
    }
}

impl Sheet {
    /// A copy of the worksheet.
    fn duplicate(&self) -> (copy: Sheet)
        ensures
            copy@ == self@,
    {
        Sheet {
            xml: copy_bytes(self.xml.as_slice()),
            last_row: self.last_row,
        }
    }

    /// Takes all rows out and writes a table, or gives `None` where that cannot be done.
    fn run_overwrite(&mut self, start_coord: &str, rows: &[Vec<String>]) -> (result: Option<Result<(), XlsxError>>)
        ensures
            reached(
                sheet_overwritten(old(self)@, start_coord@, table_views(rows@)),
                final(self)@,
                result,
            ),
    {
        match self.run_clear_sheet() {
            None => None,
            Some(Err(e)) => Some(Err(e)),
            Some(Ok(())) => self.run_append_table_at(start_coord, rows),
        }
    }
}

// ---- cells and rows -----------------------------------------------------------------------

impl XlsxEditor {
    /// Sets the cell `coord` to `value`: a formula, a number or a text. A cell that is there is replaced.
    pub fn set_cell(&mut self, coord: &str, value: &str) -> (result: Result<(), XlsxError>)
        requires
            cell_set(old(self)@.sheet, coord@, value@) is Some,
        ensures
            ended(
                sheet_edited(old(self)@, cell_set(old(self)@.sheet, coord@, value@)),
                final(self)@,
                result,
            ),
    {
        self.sheet.run_set_cell(coord, value).unwrap()
    }

    /// Does what `set_cell` does, or gives `None` and changes nothing where
    /// a column is too large to be held.
    pub fn try_set_cell(&mut self, coord: &str, value: &str) -> (result: Option<Result<(), XlsxError>>)
        ensures
            tried(
                sheet_edited(old(self)@, cell_set(old(self)@.sheet, coord@, value@)),
                old(self)@,
                final(self)@,
                result,
            ),
    {
        let mut probe = self.sheet.duplicate();
        if probe.run_set_cell(coord, value).is_none() {
            return None;
        }
        Some(self.set_cell(coord, value))
    }

    /// Appends a row of cells behind the last one.
    pub fn append_row(&mut self, cells: &[String]) -> (result: Result<(), XlsxError>)
        requires
            row_appended(old(self)@.sheet, text_views(cells@)) is Some,
        ensures
            ended(
                sheet_edited(old(self)@, row_appended(old(self)@.sheet, text_views(cells@))),
                final(self)@,
                result,
            ),
    {
        self.sheet.run_append_row(cells).unwrap()
    }

    /// Does what `append_row` does, or gives `None` and changes nothing where
    /// the row cannot be numbered.
    pub fn try_append_row(&mut self, cells: &[String]) -> (result: Option<Result<(), XlsxError>>)
        ensures
            tried(
                sheet_edited(old(self)@, row_appended(old(self)@.sheet, text_views(cells@))),
                old(self)@,
                final(self)@,
                result,
            ),
    {
        let mut probe = self.sheet.duplicate();
        if probe.run_append_row(cells).is_none() {
            return None;
        }
        Some(self.append_row(cells))
    }

    /// Appends rows of cells behind the last one.
    pub fn append_table(&mut self, rows: &[Vec<String>]) -> (result: Result<(), XlsxError>)
        requires
            table_appended(old(self)@.sheet, table_views(rows@)) is Some,
        ensures
            ended(
                sheet_edited(old(self)@, table_appended(old(self)@.sheet, table_views(rows@))),
                final(self)@,
                result,
            ),
    {
        self.sheet.run_append_table(rows).unwrap()
    }

    /// Does what `append_table` does, or gives `None` and changes nothing where
    /// a row cannot be numbered.
    pub fn try_append_table(&mut self, rows: &[Vec<String>]) -> (result: Option<Result<(), XlsxError>>)
        ensures
            tried(
                sheet_edited(old(self)@, table_appended(old(self)@.sheet, table_views(rows@))),
                old(self)@,
                final(self)@,
                result,
            ),
    {
        let mut probe = self.sheet.duplicate();
        if probe.run_append_table(rows).is_none() {
            return None;
        }
        Some(self.append_table(rows))
    }

    /// Writes a table whose first cell is `start_coord`: the cells of rows that are there are set, and
    /// rows behind the last one are appended.
    pub fn append_table_at(&mut self, start_coord: &str, rows: &[Vec<String>]) -> (result: Result<(), XlsxError>)
        requires
            table_placed(old(self)@.sheet, start_coord@, table_views(rows@)) is Some,
        ensures
            ended(
                sheet_edited(old(self)@, table_placed(old(self)@.sheet, start_coord@, table_views(rows@))),
                final(self)@,
                result,
            ),
    {
        self.sheet.run_append_table_at(start_coord, rows).unwrap()
    }

    /// Does what `append_table_at` does, or gives `None` and changes nothing where
    /// a row cannot be numbered or a cell cannot be named or placed.
    pub fn try_append_table_at(&mut self, start_coord: &str, rows: &[Vec<String>]) -> (result: Option<Result<(), XlsxError>>)
        ensures
            tried(
                sheet_edited(old(self)@, table_placed(old(self)@.sheet, start_coord@, table_views(rows@))),
                old(self)@,
                final(self)@,
                result,
            ),
    {
        let mut probe = self.sheet.duplicate();
        if probe.run_append_table_at(start_coord, rows).is_none() {
            return None;
        }
        Some(self.append_table_at(start_coord, rows))
    }

    /// Merges the cells of a range.
    pub fn merge_cells(&mut self, range: &str) -> (result: Result<(), XlsxError>)
        requires
            cells_merged(old(self)@.sheet, range@) is Some,
        ensures
            ended(
                sheet_edited(old(self)@, cells_merged(old(self)@.sheet, range@)),
                final(self)@,
                result,
            ),
    {
        self.sheet.run_merge_cells(range).unwrap()
    }

    /// Does what `merge_cells` does, or gives `None` and changes nothing where
    /// the count of the merged ranges has no quote behind it or cannot grow.
    pub fn try_merge_cells(&mut self, range: &str) -> (result: Option<Result<(), XlsxError>>)
        ensures
            tried(
                sheet_edited(old(self)@, cells_merged(old(self)@.sheet, range@)),
                old(self)@,
                final(self)@,
                result,
            ),
    {
        let mut probe = self.sheet.duplicate();
        if probe.run_merge_cells(range).is_none() {
            return None;
        }
        Some(self.merge_cells(range))
    }

    /// Takes all rows out of the worksheet.
    pub fn _clear_sheet(&mut self) -> (result: Result<(), XlsxError>)
        requires
            sheet_cleared(old(self)@.sheet) is Some,
        ensures
            ended(
                sheet_edited(old(self)@, sheet_cleared(old(self)@.sheet)),
                final(self)@,
                result,
            ),
    {
        self.sheet.run_clear_sheet().unwrap()
    }

    /// Does what `_clear_sheet` does, or gives `None` and changes nothing where
    /// the data end before they start.
    pub fn try_clear_sheet(&mut self) -> (result: Option<Result<(), XlsxError>>)
        ensures
            tried(
                sheet_edited(old(self)@, sheet_cleared(old(self)@.sheet)),
                old(self)@,
                final(self)@,
                result,
            ),
    {
        let mut probe = self.sheet.duplicate();
        if probe.run_clear_sheet().is_none() {
            return None;
        }
        Some(self._clear_sheet())
    }

    /// Takes all rows out of the worksheet and writes a table whose first cell is `start_coord`, or
    /// gives `None` and changes nothing where the data end before they start, a row cannot be
    /// numbered or a cell cannot be named.
    pub fn try_overwrite_with(&mut self, start_coord: &str, rows: &[Vec<String>]) -> (result: Option<Result<(), XlsxError>>)
        ensures
            tried(
                sheet_edited(old(self)@, sheet_overwritten(old(self)@.sheet, start_coord@, table_views(rows@))),
                old(self)@,
                final(self)@,
                result,
            ),
    {
        let mut written = self.sheet.duplicate();
        let result = written.run_overwrite(start_coord, rows);
        if result.is_some() {
            self.sheet = written;
        }
        result
    }

    /// Overwrites the worksheet with a data frame: all rows are taken out, and the names of its
    /// columns, with its rows below them, are written from `start_cell` or else `A1` on. The double
    /// quotes that its cells are shown with are left out.
    pub fn with_polars(
        &mut self,
        df: &polars_core::frame::DataFrame,
        start_cell: Option<&str>,
    ) -> (result: Result<(), XlsxError>)
        requires
            forall|shown: Seq<Seq<Seq<char>>>| #[trigger]
                shows(*df, shown) ==> frame_written(old(self)@, *df, shown, start_cell) is Some,
        ensures
            exists|shown: Seq<Seq<Seq<char>>>| #[trigger]
                shows(*df, shown) && ended(
                    frame_written(old(self)@, *df, shown, start_cell),
                    final(self)@,
                    result,
                ),
    {
        self.try_with_polars(df, start_cell).unwrap()
    }

    /// Does what `with_polars` does, or gives `None` and changes nothing where the data of the
    /// worksheet end before they start, a row cannot be numbered or a cell cannot be named.
    pub fn try_with_polars(
        &mut self,
        df: &polars_core::frame::DataFrame,
        start_cell: Option<&str>,
    ) -> (result: Option<Result<(), XlsxError>>)
        ensures
            exists|shown: Seq<Seq<Seq<char>>>| #[trigger]
                shows(*df, shown) && tried(
                    frame_written(old(self)@, *df, shown, start_cell),
                    old(self)@,
                    final(self)@,
                    result,
                ),
    {
        let table = frame_table(df);
        let start = match start_cell {
            Some(coord) => coord,
            None => "A1",
        };
        self.try_overwrite_with(start, table.as_slice())
    }
}

/// What overwriting a worksheet with a table makes of it: all rows are taken out, and the table is
/// written from `coord` on.
pub open spec fn sheet_overwritten(
    sheet: SheetView,
    coord: Seq<char>,
    table: Seq<Seq<Seq<char>>>,
) -> Option<SheetOutcome> {
    match sheet_cleared(sheet) {
        None => None,
        Some(cleared) => match cleared.result {
            Err(_) => Some(cleared),
            Ok(_) => table_placed(cleared.sheet, coord, table),
        },
    }
}

/// What overwriting the worksheet with a data frame makes of an editor, where `shown` holds the cells
/// of the frame as they are shown.
pub open spec fn frame_written(
    editor: EditorView,
    df: polars_core::frame::DataFrame,
    shown: Seq<Seq<Seq<char>>>,
    start_cell: Option<&str>,
) -> Option<EditorOutcome> {
    sheet_edited(
        editor,
        sheet_overwritten(
            editor.sheet,
            first_cell(start_cell),
            headed_table(column_names(frame_columns(df)), shown),
        ),
    )
}

/// The cell that a table starts at when none is given.
pub open spec fn first_cell(start_cell: Option<&str>) -> Seq<char> {
    match start_cell {
        Some(coord) => coord@,
        None => "A1"@,
    }
}

// ---- how far the columns reach ------------------------------------------------------------

impl XlsxEditor {
    /// The largest row of a cell that holds something in one of the columns that `columns` lists with
    /// commas, and zero where they have none.
    pub fn get_last_row_index(&self, columns: &str) -> (row: Result<u32, XlsxError>)
        ensures
            row matches Ok(r) && r == last_row_in(
                filled_cells(xml_events(self@.sheet.xml), None),
                column_list(columns@),
            ),
    {
        let events = events_of(self.sheet.xml.as_slice());
        let cells = filled_cells_among(events.as_slice());
        Ok(last_row_of_columns(cells.as_slice(), columns))
    }

    /// The largest row of a cell that holds something in each column of a range such as `A:E`, from
    /// left to right, and zero for a column without one.
    pub fn get_last_roww_index(&self, range: &str) -> (rows: Result<Vec<u32>, XlsxError>)
        requires
            last_rows_in(filled_cells(xml_events(self@.sheet.xml), None), range@) is Some,
        ensures
            match last_rows_in(filled_cells(xml_events(self@.sheet.xml), None), range@)->0 {
                Ok(list) => rows matches Ok(r) && r@ == list,
                Err(error) => rows matches Err(e) && e@ == error,
            },
    {
        let events = events_of(self.sheet.xml.as_slice());
        let cells = filled_cells_among(events.as_slice());
        try_last_rows_of_range(cells.as_slice(), range).unwrap()
    }

    /// Does what `get_last_roww_index` does, or gives `None` where an end of the range or a cell of
    /// the worksheet has no column.
    pub fn try_get_last_roww_index(&self, range: &str) -> (rows: Option<
        Result<Vec<u32>, XlsxError>,
    >)
        ensures
            match last_rows_in(filled_cells(xml_events(self@.sheet.xml), None), range@) {
                None => rows is None,
                Some(Ok(list)) => rows matches Some(Ok(r)) && r@ == list,
                Some(Err(error)) => rows matches Some(Err(e)) && e@ == error,
            },
    {
        let events = events_of(self.sheet.xml.as_slice());
        let cells = filled_cells_among(events.as_slice());
        if try_last_rows_of_range(cells.as_slice(), range).is_none() {
            return None;
        }
        Some(self.get_last_roww_index(range))
    }
}

// ---- formats, fonts and fills -------------------------------------------------------------

impl XlsxEditor {
    /// Gives the cells of a range a number format. In a whole column, such as `D:`, every cell that is
    /// there gets it, and so does the column.
    pub fn set_number_format(
        &mut self,
        range: &str,
        fmt: &str,
    ) -> (result: Result<(), XlsxError>)
        requires
            range_formatted(book_of(old(self)@), range@, fmt@) is Some,
        ensures
            ended(book_edited(old(self)@, range_formatted(book_of(old(self)@), range@, fmt@)), final(self)@, result),
    {
        run_set_number_format(&mut self.sheet, &mut self.styles_xml, range, fmt).unwrap()
    }

    /// Does what `set_number_format` does, or gives `None` and changes nothing where
    /// the range is a whole row, a number cannot grow or be held, or a value has no quote behind it.
    pub fn try_set_number_format(
        &mut self,
        range: &str,
        fmt: &str,
    ) -> (result: Option<Result<(), XlsxError>>)
        ensures
            tried(book_edited(old(self)@, range_formatted(book_of(old(self)@), range@, fmt@)), old(self)@, final(self)@, result),
    {
        let mut sheet = self.sheet.duplicate();
        let mut styles = copy_bytes(self.styles_xml.as_slice());
        if run_set_number_format(&mut sheet, &mut styles, range, fmt).is_none() {
            return None;
        }
        Some(self.set_number_format(range, fmt))
    }

    /// Gives a column a number format, for cells to come as well.
    pub fn set_column_number_format(
        &mut self,
        col_letter: &str,
        fmt: &str,
    ) -> (result: Result<(), XlsxError>)
        requires
            column_formatted(book_of(old(self)@), col_letter@, fmt@) is Some,
        ensures
            ended(book_edited(old(self)@, column_formatted(book_of(old(self)@), col_letter@, fmt@)), final(self)@, result),
    {
        run_set_column_number_format(&mut self.sheet, &mut self.styles_xml, col_letter, fmt).unwrap()
    }

    /// Does what `set_column_number_format` does, or gives `None` and changes nothing where
    /// the name is no column's, a number cannot grow or be held, or a value has no quote behind it.
    pub fn try_set_column_number_format(
        &mut self,
        col_letter: &str,
        fmt: &str,
    ) -> (result: Option<Result<(), XlsxError>>)
        ensures
            tried(book_edited(old(self)@, column_formatted(book_of(old(self)@), col_letter@, fmt@)), old(self)@, final(self)@, result),
    {
        let mut sheet = self.sheet.duplicate();
        let mut styles = copy_bytes(self.styles_xml.as_slice());
        if run_set_column_number_format(&mut sheet, &mut styles, col_letter, fmt).is_none() {
            return None;
        }
        Some(self.set_column_number_format(col_letter, fmt))
    }

    /// Gives a column a number format, and every cell of it that is there.
    pub fn force_column_number_format(
        &mut self,
        col_letter: &str,
        fmt: &str,
    ) -> (result: Result<(), XlsxError>)
        requires
            column_forced(book_of(old(self)@), col_letter@, fmt@) is Some,
        ensures
            ended(book_edited(old(self)@, column_forced(book_of(old(self)@), col_letter@, fmt@)), final(self)@, result),
    {
        run_force_column_number_format(&mut self.sheet, &mut self.styles_xml, col_letter, fmt).unwrap()
    }

    /// Does what `force_column_number_format` does, or gives `None` and changes nothing where
    /// the name is no column's, a number cannot grow or be held, or a value has no quote behind it.
    pub fn try_force_column_number_format(
        &mut self,
        col_letter: &str,
        fmt: &str,
    ) -> (result: Option<Result<(), XlsxError>>)
        ensures
            tried(book_edited(old(self)@, column_forced(book_of(old(self)@), col_letter@, fmt@)), old(self)@, final(self)@, result),
    {
        let mut sheet = self.sheet.duplicate();
        let mut styles = copy_bytes(self.styles_xml.as_slice());
        if run_force_column_number_format(&mut sheet, &mut styles, col_letter, fmt).is_none() {
            return None;
        }
        Some(self.force_column_number_format(col_letter, fmt))
    }

    /// Gives the cells of a range a font, and keeps their fills. `size` is in points. A whole column,
    /// such as `D:`, gets it for cells to come, and a whole row, such as `5:`, with its cells.
    pub fn set_font(
        &mut self,
        range: &str,
        name: &str,
        size: &str,
        bold: bool,
        italic: bool,
    ) -> (result: Result<&mut Self, XlsxError>)
        requires
            font_set(book_of(old(self)@), range@, name@, size@, bold, italic) is Some,
        ensures
            match book_edited(old(self)@, font_set(book_of(old(self)@), range@, name@, size@, bold, italic)) {
                None => false,
                Some(outcome) => match result {
                    Ok(editor) => {
                        &&& outcome.result is Ok
                        &&& editor@ == outcome.editor
                        &&& *final(self) == *final(editor)
                    },
                    Err(e) => outcome.result == Err::<(), ErrorView>(e@) && final(self)@
                        == outcome.editor,
                },
            },
    {
        match run_set_font(&mut self.sheet, &mut self.styles_xml, range, name, size, bold, italic).unwrap() {
            Ok(()) => Ok(self),
            Err(e) => Err(e),
        }
    }

    /// Does what `set_font` does, or gives `None` and changes nothing where
    /// a number cannot grow or be held, or a value has no quote behind it.
    pub fn try_set_font(
        &mut self,
        range: &str,
        name: &str,
        size: &str,
        bold: bool,
        italic: bool,
    ) -> (result: Option<Result<(), XlsxError>>)
        ensures
            tried(book_edited(old(self)@, font_set(book_of(old(self)@), range@, name@, size@, bold, italic)), old(self)@, final(self)@, result),
    {
        let mut sheet = self.sheet.duplicate();
        let mut styles = copy_bytes(self.styles_xml.as_slice());
        if run_set_font(&mut sheet, &mut styles, range, name, size, bold, italic).is_none() {
            return None;
        }
        match self.set_font(range, name, size, bold, italic) {
            Ok(_) => Some(Ok(())),
            Err(e) => Some(Err(e)),
        }
    }

    /// Gives the cells of a range a fill in one colour, such as `FFFF00`, and keeps their fonts. A whole
    /// column, such as `D:`, gets it for cells to come, and a whole row, such as `5:`, with its cells.
    pub fn set_fill(
        &mut self,
        range: &str,
        rgb: &str,
    ) -> (result: Result<&mut Self, XlsxError>)
        requires
            fill_set(book_of(old(self)@), range@, rgb@) is Some,
        ensures
            match book_edited(old(self)@, fill_set(book_of(old(self)@), range@, rgb@)) {
                None => false,
                Some(outcome) => match result {
                    Ok(editor) => {
                        &&& outcome.result is Ok
                        &&& editor@ == outcome.editor
                        &&& *final(self) == *final(editor)
                    },
                    Err(e) => outcome.result == Err::<(), ErrorView>(e@) && final(self)@
                        == outcome.editor,
                },
            },
    {
        match run_set_fill(&mut self.sheet, &mut self.styles_xml, range, rgb).unwrap() {
            Ok(()) => Ok(self),
            Err(e) => Err(e),
        }
    }

    /// Does what `set_fill` does, or gives `None` and changes nothing where
    /// a number cannot grow or be held, or a value has no quote behind it.
    pub fn try_set_fill(
        &mut self,
        range: &str,
        rgb: &str,
    ) -> (result: Option<Result<(), XlsxError>>)
        ensures
            tried(book_edited(old(self)@, fill_set(book_of(old(self)@), range@, rgb@)), old(self)@, final(self)@, result),
    {
        let mut sheet = self.sheet.duplicate();
        let mut styles = copy_bytes(self.styles_xml.as_slice());
        if run_set_fill(&mut sheet, &mut styles, range, rgb).is_none() {
            return None;
        }
        match self.set_fill(range, rgb) {
            Ok(_) => Some(Ok(())),
            Err(e) => Some(Err(e)),
        }
    }

    /// Makes sure that there is a style with the number format `num_fmt`, the font and the fill that
    /// are given, and gives its number. With an alignment a new style is always made.
    pub fn ensure_style(
        &mut self,
        num_fmt: Option<&str>,
        font_id: Option<u32>,
        fill_id: Option<u32>,
        align: Option<&AlignSpec>,
    ) -> (id: Result<u32, XlsxError>)
        requires
            style_ensured(
                old(self)@.styles,
                optional_str(num_fmt),
                font_id,
                fill_id,
                optional_align(align),
            ) is Some,
        ensures
            style_given(
                style_ensured(
                    old(self)@.styles,
                    optional_str(num_fmt),
                    font_id,
                    fill_id,
                    optional_align(align),
                ),
                old(self)@,
                final(self)@,
                id,
            ),
    {
        run_ensure_style(&mut self.styles_xml, num_fmt, font_id, fill_id, align).unwrap()
    }

    /// Does what `ensure_style` does, or gives `None` and changes nothing where a number cannot grow
    /// or be held, or a count has no quote behind it.
    pub fn try_ensure_style(
        &mut self,
        num_fmt: Option<&str>,
        font_id: Option<u32>,
        fill_id: Option<u32>,
        align: Option<&AlignSpec>,
    ) -> (id: Option<Result<u32, XlsxError>>)
        ensures
            ({
                let outcome = style_ensured(
                    old(self)@.styles,
                    optional_str(num_fmt),
                    font_id,
                    fill_id,
                    optional_align(align),
                );
                match id {
                    None => outcome is None && final(self)@ == old(self)@,
                    Some(i) => style_given(outcome, old(self)@, final(self)@, i),
                }
            }),
    {
        let mut styles = copy_bytes(self.styles_xml.as_slice());
        if run_ensure_style(&mut styles, num_fmt, font_id, fill_id, align).is_none() {
            return None;
        }
        Some(self.ensure_style(num_fmt, font_id, fill_id, align))
    }
}

/// An outcome holds of the style sheet of an editor and of the number that was given, and nothing
/// else of the editor changed.
pub open spec fn style_given(
    outcome: Option<StylesOutcome>,
    before: EditorView,
    editor: EditorView,
    id: Result<u32, XlsxError>,
) -> bool {
    &&& outcome is Some
    &&& outcome->0.result == crate::error::result_view(id)
    &&& editor == (EditorView { styles: outcome->0.styles, ..before })
}

// ---- sheets -------------------------------------------------------------------------------

impl XlsxEditor {
    /// Adds an empty sheet in front of the others and opens it, where `sheets` are the names of the
    /// sheets and `names` those of the files of the package that was read.
    pub fn add_worksheet(&mut self, sheets: &[String], names: &[String], sheet_name: &str) -> (result:
        Result<&mut Self, XlsxError>)
        requires
            worksheet_added(
                old(self)@,
                text_views(sheets@),
                text_views(names@),
                sheet_name@,
            ) is Some,
        ensures
            match worksheet_added(
                old(self)@,
                text_views(sheets@),
                text_views(names@),
                sheet_name@,
            ) {
                None => false,
                Some(outcome) => match result {
                    Ok(editor) => {
                        &&& outcome.result is Ok
                        &&& editor@ == outcome.editor
                        &&& *final(self) == *final(editor)
                    },
                    Err(e) => outcome.result == Err::<(), ErrorView>(e@) && final(self)@
                        == outcome.editor,
                },
            },
    {
        match self.run_add_worksheet(sheets, names, sheet_name) {
            Ok(()) => Ok(self),
            Err(e) => Err(e),
        }
    }

    /// Does what `add_worksheet` does, or gives `None` and changes nothing where a number that
    /// identifies the sheet cannot grow.
    pub fn try_add_worksheet(
        &mut self,
        sheets: &[String],
        names: &[String],
        sheet_name: &str,
    ) -> (result: Option<Result<(), XlsxError>>)
        ensures
            tried(
                worksheet_added(
                    old(self)@,
                    text_views(sheets@),
                    text_views(names@),
                    sheet_name@,
                ),
                old(self)@,
                final(self)@,
                result,
            ),
    {
        if self.cannot_number(sheets, names, sheet_name) {
            return None;
        }
        match self.add_worksheet(sheets, names, sheet_name) {
            Ok(_) => Some(Ok(())),
            Err(e) => Some(Err(e)),
        }
    }
}

} // verus!
