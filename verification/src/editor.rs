//! The editor of a workbook.

use vstd::prelude::*;
use vstd::string::*;
use crate::bytes::copy_bytes;
use crate::error::{ErrorView, XlsxError};
use crate::sheet::{Sheet, SheetView};
use crate::text::{text_views, utf8};
use crate::workbook::{
    find_name, find_part, last_row_among, last_row_of, name_from, part_content, part_views, scan,
    scanned, sheet_file, sheet_file_path, Part, PartView,
};
use crate::xml::{elements, elements_among, events_of, xml_events};

verus! {

/// An editor of one worksheet of a workbook.
pub struct XlsxEditor {
    /// The path of the worksheet in the package.
    pub sheet_path: String,
    /// The worksheet.
    pub sheet: Sheet,
    /// The style sheet.
    pub styles_xml: Vec<u8>,
    /// The list of the sheets.
    pub workbook_xml: Vec<u8>,
    /// The relationships of the workbook.
    pub rels_xml: Vec<u8>,
    /// Files that are new, or that another worksheet left behind.
    pub new_files: Vec<Part>,
}

/// The view of an editor.
pub struct EditorView {
    pub sheet_path: Seq<char>,
    pub sheet: SheetView,
    pub styles: Seq<u8>,
    pub workbook: Seq<u8>,
    pub rels: Seq<u8>,
    pub new_files: Seq<PartView>,
}

impl View for XlsxEditor {
    type V = EditorView;

    open spec fn view(&self) -> EditorView {
        EditorView {
            sheet_path: self.sheet_path@,
            sheet: self.sheet@,
            styles: self.styles_xml@,
            workbook: self.workbook_xml@,
            rels: self.rels_xml@,
            new_files: part_views(self.new_files@),
        }
    }
}

/// What an operation makes of an editor, and what it returns.
pub struct EditorOutcome {
    pub editor: EditorView,
    pub result: Result<(), ErrorView>,
}

// ---- opening ------------------------------------------------------------------------------

/// An editor for the sheet with number `id` of a package, or the error for the first file that is
/// missing.
pub open spec fn opened_sheet(parts: Seq<PartView>, id: nat) -> Result<EditorView, ErrorView> {
    match part_content(parts, sheet_file(id)) {
        None => Err(ErrorView::FileNotFound(sheet_file(id))),
        Some(xml) => match part_content(parts, "xl/styles.xml"@) {
            None => Err(ErrorView::FileNotFound("xl/styles.xml"@)),
            Some(styles) => match part_content(parts, "xl/workbook.xml"@) {
                None => Err(ErrorView::FileNotFound("xl/workbook.xml"@)),
                Some(workbook) => match part_content(parts, "xl/_rels/workbook.xml.rels"@) {
                    None => Err(ErrorView::FileNotFound("xl/_rels/workbook.xml.rels"@)),
                    Some(rels) => Ok(
                        EditorView {
                            sheet_path: sheet_file(id),
                            sheet: SheetView {
                                xml,
                                last_row: last_row_of(elements(xml_events(xml), utf8("row"@))),
                            },
                            styles,
                            workbook,
                            rels,
                            new_files: Seq::empty(),
                        },
                    ),
                },
            },
        },
    }
}

/// An editor for the sheet called `name` of a package: the number of its file is taken to be its place
/// in the workbook, counted from one.
pub open spec fn opened(parts: Seq<PartView>, name: Seq<char>) -> Result<EditorView, ErrorView> {
    match scanned(parts) {
        Err(e) => Err(e),
        Ok(names) => match name_from(names, name, 0) {
            None => Err(ErrorView::SheetNotFound(name)),
            Some(i) => opened_sheet(parts, (i + 1) as nat),
        },
    }
}

/// The view of an editor that was asked for.
pub open spec fn editor_result(result: Result<XlsxEditor, XlsxError>) -> Result<
    EditorView,
    ErrorView,
> {
    match result {
        Ok(editor) => Ok(editor@),
        Err(e) => Err(e@),
    }
}

/// A copy of what the first file called `name` holds, or the error for a missing file.
fn read_part(parts: &[Part], name: &str) -> (content: Result<Vec<u8>, XlsxError>)
    ensures
        match content {
            Ok(c) => part_content(part_views(parts@), name@) == Some(c@),
            Err(e) => part_content(part_views(parts@), name@) is None && e@
                == ErrorView::FileNotFound(name@),
        },
{
    match find_part(parts, name) {
        None => Err(XlsxError::FileNotFound { file: name.to_owned() }),
        Some(i) => {
            assert(part_views(parts@)[i as int] == parts@[i as int]@);
            Ok(copy_bytes(parts[i].content.as_slice()))
        },
    }
}

/// The number of the sheet called `name`, counted from one.
pub fn sheet_number(names: &[String], name: &str) -> (number: Result<usize, XlsxError>)
    ensures
        match name_from(text_views(names@), name@, 0) {
            Some(i) => number matches Ok(n) && n == i + 1,
            None => number matches Err(e) && e@ == ErrorView::SheetNotFound(name@),
        },
{
    let _total: usize = names.len();
    match find_name(names, name) {
        Some(i) => Ok(i + 1),
        None => Err(XlsxError::SheetNotFound { name: name.to_owned() }),
    }
}

impl XlsxEditor {
    /// Opens the sheet with number `sheet_id`, counted from one.
    pub fn open_sheet(parts: &[Part], sheet_id: usize) -> (editor: Result<Self, XlsxError>)
        ensures
            editor_result(editor) == opened_sheet(part_views(parts@), sheet_id as nat),
    {
        let sheet_path = sheet_file_path(sheet_id);
        let xml = match read_part(parts, sheet_path.as_str()) {
            Ok(xml) => xml,
            Err(e) => {
                return Err(e);
            },
        };
        let styles_xml = match read_part(parts, "xl/styles.xml") {
            Ok(xml) => xml,
            Err(e) => {
                return Err(e);
            },
        };
        let workbook_xml = match read_part(parts, "xl/workbook.xml") {
            Ok(xml) => xml,
            Err(e) => {
                return Err(e);
            },
        };
        let rels_xml = match read_part(parts, "xl/_rels/workbook.xml.rels") {
            Ok(xml) => xml,
            Err(e) => {
                return Err(e);
            },
        };
        let events = events_of(xml.as_slice());
        let rows = elements_among(events.as_slice(), "row");
        let last_row: u32 = last_row_among(rows.as_slice());
        let new_files: Vec<Part> = Vec::new();
        assert(part_views(new_files@) =~= Seq::empty());
        Ok(
            XlsxEditor {
                sheet_path,
                sheet: Sheet { xml, last_row },
                styles_xml,
                workbook_xml,
                rels_xml,
                new_files,
            },
        )
    }

    /// Opens the sheet called `sheet_name`, or rather the file whose number is the place of that name
    /// among the sheets of the workbook, counted from one. The two agree where the workbook lists its
    /// sheets in the order of their files. They do not once a sheet was added, since `add_worksheet`
    /// lists the new sheet first and gives it the file with the next number: `open_sheet` opens a sheet of
    /// such a workbook by the number of its file.
    pub fn open(parts: &[Part], sheet_name: &str) -> (editor: Result<Self, XlsxError>)
        ensures
            editor_result(editor) == opened(part_views(parts@), sheet_name@),
    {
        let names = match scan(parts) {
            Ok(names) => names,
            Err(e) => {
                return Err(e);
            },
        };
        match sheet_number(names.as_slice(), sheet_name) {
            Ok(id) => Self::open_sheet(parts, id),
            Err(e) => Err(e),
        }
    }
}

} // verus!
