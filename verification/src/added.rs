//! New worksheets.

use vstd::prelude::*;
use vstd::string::*;
use crate::bytes::{copy_bytes, find, find_from, insert, insert_bytes, rfind};
use crate::editor::{EditorOutcome, EditorView, XlsxEditor};
use crate::error::{ErrorView, XlsxError};
use crate::package::part_names;
use crate::sheet::SheetView;
use crate::text::{decimal, decimal_text, join3, locate, locate_last, text_views, utf8};
use crate::workbook::{
    file_number_of, find_name, find_part, largest_file, largest_relation, largest_relation_among,
    largest_sheet_id, largest_sheet_id_among, part_at, part_views, sheet_file, sheet_file_path,
    Part, PartView,
};
use crate::xml::{elements, elements_among, events_of, xml_events};

verus! {

/// A worksheet without rows.
pub const EMPTY_SHEET: &'static str =
    "<?xml version=\"1.0\" encoding=\"UTF-8\" standalone=\"yes\"?>\n        <worksheet xmlns=\"http://schemas.openxmlformats.org/spreadsheetml/2006/main\">\n          <sheetData> </sheetData>\n        </worksheet>";

/// The files with `content` under `name`: it takes the place of what is there, or comes last.
pub open spec fn file_stored(files: Seq<PartView>, name: Seq<char>, content: Seq<u8>) -> Seq<
    PartView,
> {
    match part_at(files, name) {
        Some(i) => files.update(i, PartView { name, content }),
        None => files.push(PartView { name, content }),
    }
}

/// The tag of a sheet in the workbook, on a line of its own.
pub open spec fn sheet_entry(name: Seq<char>, id: nat, relation: nat) -> Seq<char> {
    "\n  <sheet name=\""@ + name + ("\" sheetId=\""@ + decimal(id) + ("\" r:id=\"rId"@ + decimal(
        relation,
    ) + "\"/>"@))
}

/// The tag of the relationship between the workbook and a sheet's file.
pub open spec fn relation_entry(relation: nat, file: nat) -> Seq<char> {
    "<Relationship Id=\"rId"@ + decimal(relation) + (
    "\" Type=\"http://schemas.openxmlformats.org/officeDocument/2006/relationships/worksheet\" Target=\"worksheets/sheet"@
        + decimal(file) + ".xml\"/>"@)
}

/// The paths that are taken: those of the package that was read and those of the new files.
pub open spec fn taken_paths(editor: EditorView, names: Seq<Seq<char>>) -> Seq<Seq<char>> {
    names + part_names(editor.new_files)
}

/// The front of the list of sheets of a workbook: behind the tag that opens it. A list that does not
/// end or start is refused.
pub open spec fn sheets_front(workbook: Seq<u8>) -> Result<int, ErrorView> {
    if rfind(workbook, utf8("</sheets>"@)) is None {
        Err(ErrorView::XmlTagNotFound("</sheets>"@))
    } else {
        match find(workbook, utf8("<sheets"@)) {
            None => Err(ErrorView::XmlTagNotFound("<sheets>"@)),
            Some(start) => match find_from(workbook, utf8(">"@), start) {
                None => Err(ErrorView::XmlTagNotFound("<sheets>"@)),
                Some(at) => Ok(at + utf8(">"@).len()),
            },
        }
    }
}

/// What adding the sheet `name` makes of an editor, where `id`, `relation` and `file` are the
/// numbers that identify it: it goes to the front of the list of sheets, the worksheet that was open
/// is put among the new files, and the new worksheet, which is empty, is opened.
pub open spec fn worksheet_placed(
    editor: EditorView,
    name: Seq<char>,
    id: nat,
    relation: nat,
    file: nat,
) -> EditorOutcome {
    match sheets_front(editor.workbook) {
        Err(e) => EditorOutcome { editor, result: Err(e) },
        Ok(front) => match rfind(editor.rels, utf8("</Relationships>"@)) {
            None => EditorOutcome {
                editor,
                result: Err(ErrorView::XmlTagNotFound("</Relationships>"@)),
            },
            Some(rels_end) => EditorOutcome {
                editor: EditorView {
                    sheet_path: sheet_file(file),
                    sheet: SheetView { xml: utf8(EMPTY_SHEET@), last_row: 0 },
                    workbook: insert(
                        editor.workbook,
                        front,
                        utf8(sheet_entry(name, id, relation)),
                    ),
                    rels: insert(editor.rels, rels_end, utf8(relation_entry(relation, file))),
                    new_files: file_stored(
                        file_stored(editor.new_files, sheet_file(file), utf8(EMPTY_SHEET@)),
                        editor.sheet_path,
                        editor.sheet.xml,
                    ),
                    ..editor
                },
                result: Ok(()),
            },
        },
    }
}

/// What adding the sheet `name` makes of an editor, where `sheets` are the names of the sheets and
/// `names` those of the files of the package that was read. Each number that identifies the sheet
/// is one more than the largest that is taken. `None` stands for one that cannot grow.
pub open spec fn worksheet_added(
    editor: EditorView,
    sheets: Seq<Seq<char>>,
    names: Seq<Seq<char>>,
    name: Seq<char>,
) -> Option<EditorOutcome> {
    let id = largest_sheet_id(elements(xml_events(editor.workbook), utf8("sheet"@)));
    let relation = largest_relation(elements(xml_events(editor.rels), utf8("Relationship"@)));
    let file = largest_file(taken_paths(editor, names));
    if sheets.contains(name) {
        Some(EditorOutcome { editor, result: Err(ErrorView::SheetAlreadyExists(name)) })
    } else if id == u32::MAX || relation == u32::MAX || file == usize::MAX {
        None
    } else {
        Some(
            worksheet_placed(
                editor,
                name,
                (id + 1) as nat,
                (relation + 1) as nat,
                (file + 1) as nat,
            ),
        )
    }
}

/// The front of the list of sheets of a workbook.
fn find_sheets_front(workbook: &[u8]) -> (front: Result<usize, XlsxError>)
    ensures
        match sheets_front(workbook@) {
            Ok(at) => front matches Ok(f) && f == at && f <= workbook@.len(),
            Err(e) => front matches Err(r) && r@ == e,
        },
{
    if locate_last(workbook, "</sheets>").is_none() {
        return Err(XlsxError::XmlTagNotFound { tag: "</sheets>".to_owned() });
    }
    let start: usize = match locate(workbook, "<sheets", 0) {
        None => {
            return Err(XlsxError::XmlTagNotFound { tag: "<sheets>".to_owned() });
        },
        Some(start) => start,
    };
    match locate(workbook, ">", start) {
        None => Err(XlsxError::XmlTagNotFound { tag: "<sheets>".to_owned() }),
        Some(at) => Ok(at + ">".len()),
    }
}

/// Puts a file among others.
fn store_file(files: &mut Vec<Part>, name: &str, content: &[u8])
    ensures
        part_views(final(files)@) == file_stored(part_views(old(files)@), name@, content@),
{
    let part = Part { name: name.to_owned(), content: copy_bytes(content) };
    match find_part(files.as_slice(), name) {
        Some(i) => {
            files.set(i, part);
        },
        None => {
            files.push(part);
        },
    }
    assert(part_views(files@) =~= file_stored(part_views(old(files)@), name@, content@));
}

/// The largest number of a sheet's file among `names` and the names of `files`.
fn largest_file_among(names: &[String], files: &[Part]) -> (largest: usize)
    ensures
        largest == largest_file(text_views(names@) + part_names(part_views(files@))),
{
    let ghost all = text_views(names@) + part_names(part_views(files@));
    let mut largest: usize = 0;
    let mut i: usize = 0;
    while i < names.len()
        invariant
            i <= names@.len(),
            all == text_views(names@) + part_names(part_views(files@)),
            largest == largest_file(all.take(i as int)),
        decreases names@.len() - i,
    {
        assert(all.take(i + 1).drop_last() =~= all.take(i as int));
        assert(all.take(i + 1).last() == names@[i as int]@);
        if let Some(n) = file_number_of(names[i].as_str()) {
            if n > largest {
                largest = n;
            }
        }
        i += 1;
    }
    let mut j: usize = 0;
    while j < files.len()
        invariant
            j <= files@.len(),
            all == text_views(names@) + part_names(part_views(files@)),
            largest == largest_file(all.take(names@.len() + j)),
        decreases files@.len() - j,
    {
        let ghost k = names@.len() + j;
        assert(all.take(k + 1).drop_last() =~= all.take(k));
        assert(all.take(k + 1).last() == files@[j as int].name@);
        if let Some(n) = file_number_of(files[j].name.as_str()) {
            if n > largest {
                largest = n;
            }
        }
        j += 1;
    }
    assert(all.take(names@.len() + j) =~= all);
    largest
}

impl XlsxEditor {
    /// Adds the sheet `name`, identified by the numbers `id`, `relation` and `file`.
    pub fn place_worksheet(&mut self, name: &str, id: u32, relation: u32, file: usize) -> (result:
        Result<(), XlsxError>)
        ensures
            ({
                let outcome = worksheet_placed(
                    old(self)@,
                    name@,
                    id as nat,
                    relation as nat,
                    file as nat,
                );
                &&& final(self)@ == outcome.editor
                &&& crate::error::result_view(result) == outcome.result
            }),
    {
        let front: usize = match find_sheets_front(self.workbook_xml.as_slice()) {
            Err(e) => {
                return Err(e);
            },
            Ok(at) => at,
        };
        let rels_end: usize = match locate_last(self.rels_xml.as_slice(), "</Relationships>") {
            None => {
                return Err(XlsxError::XmlTagNotFound { tag: "</Relationships>".to_owned() });
            },
            Some(at) => at,
        };
        let path = sheet_file_path(file);
        let id_digits = decimal_text(id as u64);
        let relation_digits = decimal_text(relation as u64);
        let file_digits = decimal_text(file as u64);
        let relation_part = join3("\" r:id=\"rId", relation_digits.as_str(), "\"/>");
        let id_part = join3("\" sheetId=\"", id_digits.as_str(), relation_part.as_str());
        let sheet_tag = join3("\n  <sheet name=\"", name, id_part.as_str());
        let target_part = join3(
            "\" Type=\"http://schemas.openxmlformats.org/officeDocument/2006/relationships/worksheet\" Target=\"worksheets/sheet",
            file_digits.as_str(),
            ".xml\"/>",
        );
        let relation_tag = join3(
            "<Relationship Id=\"rId",
            relation_digits.as_str(),
            target_part.as_str(),
        );
        insert_bytes(&mut self.workbook_xml, front, sheet_tag.as_str().as_bytes());
        insert_bytes(&mut self.rels_xml, rels_end, relation_tag.as_str().as_bytes());
        store_file(&mut self.new_files, path.as_str(), EMPTY_SHEET.as_bytes());
        store_file(
            &mut self.new_files,
            self.sheet_path.as_str(),
            self.sheet.xml.as_slice(),
        );
        self.sheet_path = path;
        self.sheet.xml = copy_bytes(EMPTY_SHEET.as_bytes());
        self.sheet.last_row = 0;
        Ok(())
    }

    /// The largest numbers that are taken: of a sheet, of a relationship and of a sheet's file.
    fn taken_numbers(&self, names: &[String]) -> (taken: (u32, u32, usize))
        ensures
            taken.0 == largest_sheet_id(elements(xml_events(self@.workbook), utf8("sheet"@))),
            taken.1 == largest_relation(elements(xml_events(self@.rels), utf8("Relationship"@))),
            taken.2 == largest_file(taken_paths(self@, text_views(names@))),
    {
        let events = events_of(self.workbook_xml.as_slice());
        let tags = elements_among(events.as_slice(), "sheet");
        let id: u32 = largest_sheet_id_among(tags.as_slice());
        let events = events_of(self.rels_xml.as_slice());
        let tags = elements_among(events.as_slice(), "Relationship");
        let relation: u32 = largest_relation_among(tags.as_slice());
        let file: usize = largest_file_among(names, self.new_files.as_slice());
        (id, relation, file)
    }

    /// Whether a sheet of a new name cannot be numbered.
    pub(crate) fn cannot_number(&self, sheets: &[String], names: &[String], name: &str) -> (full:
        bool)
        ensures
            full == (worksheet_added(self@, text_views(sheets@), text_views(names@), name@) is None),
    {
        if find_name(sheets, name).is_some() {
            return false;
        }
        let (id, relation, file) = self.taken_numbers(names);
        id == u32::MAX || relation == u32::MAX || file == usize::MAX
    }

    /// Adds the sheet `name`.
    pub(crate) fn run_add_worksheet(
        &mut self,
        sheets: &[String],
        names: &[String],
        name: &str,
    ) -> (result: Result<(), XlsxError>)
        requires
            worksheet_added(old(self)@, text_views(sheets@), text_views(names@), name@) is Some,
        ensures
            ({
                let outcome = worksheet_added(
                    old(self)@,
                    text_views(sheets@),
                    text_views(names@),
                    name@,
                )->0;
                &&& final(self)@ == outcome.editor
                &&& crate::error::result_view(result) == outcome.result
            }),
    {
        if find_name(sheets, name).is_some() {
            return Err(XlsxError::SheetAlreadyExists { name: name.to_owned() });
        }
        let (id, relation, file) = self.taken_numbers(names);
        self.place_worksheet(name, id + 1, relation + 1, file + 1)
    }
}

} // verus!
