//! Worksheets that are added, packages that are opened and packages that are written.

use vstd::prelude::*;
use crate::added::{file_stored, relation_entry, sheet_entry, worksheet_added, EMPTY_SHEET};
use crate::bytes::{find, find_from, insert, lemma_find_from_is, occurs_at, rfind};
use crate::editor::{opened, opened_sheet, EditorOutcome, EditorView};
use crate::error::ErrorView;
use crate::laws::pieces::lemma_byte_at;
use crate::laws::saving::{lemma_file_stored, saved};
use crate::package::{
    applied, entry_steps, extra_steps, part_names, save_steps, sheet_steps, StepView,
};
use crate::tags::lemma_bracket;
use crate::text::{decimal, lemma_utf8_ascii, utf8};
use crate::workbook::{
    largest_file, largest_relation, largest_sheet_id, last_row_of, lemma_part_from, name_from,
    part_at, part_content, scanned, sheet_file, sheet_names, PartView,
};
use crate::xml::{elements, xml_events};

verus! {

// ---- adding a worksheet -------------------------------------------------------------------

/// The tag of a sheet in the list of sheets.
pub open spec fn sheet_text(name: Seq<char>, id: nat, relation: nat) -> Seq<char> {
    "\n  <sheet name=\""@ + name + "\" sheetId=\""@ + decimal(id) + "\" r:id=\"rId"@ + decimal(relation)
        + "\"/>"@
}

/// The tag of a relationship of the workbook with a worksheet's file.
pub open spec fn relation_text(relation: nat, target: Seq<char>) -> Seq<char> {
    "<Relationship Id=\"rId"@ + decimal(relation)
        + "\" Type=\"http://schemas.openxmlformats.org/officeDocument/2006/relationships/worksheet\" Target=\""@
        + target + "\"/>"@
}

/// A sheet that is added stands first in the list of sheets, under its name and with the next number;
/// it refers to the relationship that is added, which has the next number too, and whose target is the
/// file of the new sheet. The new sheet, which is empty, is open, and the one that was open is among
/// the new files.
pub proof fn law_worksheet_added(
    editor: EditorView,
    sheets: Seq<Seq<char>>,
    names: Seq<Seq<char>>,
    name: Seq<char>,
    a: Seq<u8>,
    t: Seq<u8>,
    b: Seq<u8>,
    x: Seq<u8>,
    y: Seq<u8>,
    id: nat,
    relation: nat,
    file: nat,
)
    requires
        !sheets.contains(name),
        id == largest_sheet_id(elements(xml_events(editor.workbook), utf8("sheet"@))) + 1,
        relation == largest_relation(elements(xml_events(editor.rels), utf8("Relationship"@))) + 1,
        file == largest_file(names + part_names(editor.new_files)) + 1,
        id <= u32::MAX,
        relation <= u32::MAX,
        file <= usize::MAX,
        editor.workbook == a + utf8("<sheets"@) + t + utf8(">"@) + b,
        find(editor.workbook, utf8("<sheets"@)) == Some(a.len() as int),
        forall|i: int| 0 <= i < t.len() ==> #[trigger] t[i] != 62,
        rfind(editor.workbook, utf8("</sheets>"@)) is Some,
        editor.rels == x + utf8("</Relationships>"@) + y,
        rfind(editor.rels, utf8("</Relationships>"@)) == Some(x.len() as int),
    ensures
        worksheet_added(editor, sheets, names, name) matches Some(outcome) && outcome.result is Ok && {
            let after = outcome.editor;
            let target = "worksheets/sheet"@ + decimal(file) + ".xml"@;
            &&& after.sheet_path == "xl/"@ + target
            &&& after.workbook == a + utf8("<sheets"@) + t + utf8(">"@) + utf8(
                sheet_text(name, id, relation),
            ) + b
            &&& after.rels == x + utf8(relation_text(relation, target)) + utf8("</Relationships>"@) + y
            &&& after.styles == editor.styles
            &&& after.sheet.last_row == 0
            &&& after.sheet.xml == utf8(
                "<?xml version=\"1.0\" encoding=\"UTF-8\" standalone=\"yes\"?>\n        <worksheet xmlns=\"http://schemas.openxmlformats.org/spreadsheetml/2006/main\">\n          <sheetData> </sheetData>\n        </worksheet>"@,
            )
            &&& part_content(after.new_files, editor.sheet_path) == Some(editor.sheet.xml)
            &&& after.sheet_path != editor.sheet_path ==> part_content(
                after.new_files,
                after.sheet_path,
            ) == Some(after.sheet.xml)
            &&& forall|other: Seq<char>|
                other != editor.sheet_path && other != after.sheet_path ==> #[trigger] part_content(
                    after.new_files,
                    other,
                ) == part_content(editor.new_files, other)
        },
{
    let target = "worksheets/sheet"@ + decimal(file) + ".xml"@;
    let open = utf8("<sheets"@);
    let bracket = utf8(">"@);
    let at = (a.len() + open.len() + t.len()) as int;
    lemma_entries(name, id, relation, file);
    lemma_bracket();
    reveal_strlit("<sheets");
    lemma_utf8_ascii("<sheets"@);
    assert(editor.workbook.subrange(at, at + 1) =~= bracket);
    assert forall|i: int| a.len() <= i < at implies !#[trigger] occurs_at(
        editor.workbook,
        bracket,
        i,
    ) by {
        if occurs_at(editor.workbook, bracket, i) {
            lemma_byte_at(editor.workbook, bracket, i, 0);
            if i < a.len() + open.len() {
                assert(editor.workbook[i] == open[i - a.len()]);
                assert(open[i - a.len()] == "<sheets"@[i - a.len()] as u8);
            } else {
                assert(editor.workbook[i] == t[i - a.len() - open.len()]);
            }
        }
    }
    lemma_find_from_is(editor.workbook, bracket, a.len() as int, at);
    let entry = utf8(sheet_text(name, id, relation));
    let link = utf8(relation_text(relation, target));
    assert(insert(editor.workbook, at + 1, entry) =~= a + open + t + bracket + entry + b);
    assert(insert(editor.rels, x.len() as int, link) =~= x + link + utf8("</Relationships>"@) + y);
    let empty = utf8(EMPTY_SHEET@);
    let path = sheet_file(file);
    let stored = file_stored(editor.new_files, path, empty);
    lemma_file_stored(stored, editor.sheet_path, editor.sheet.xml, editor.sheet_path);
    lemma_file_stored(stored, editor.sheet_path, editor.sheet.xml, path);
    lemma_file_stored(editor.new_files, path, empty, path);
    let files = file_stored(stored, editor.sheet_path, editor.sheet.xml);
    assert forall|other: Seq<char>|
        other != editor.sheet_path && other != path implies #[trigger] part_content(files, other)
        == part_content(editor.new_files, other) by {
        lemma_file_stored(stored, editor.sheet_path, editor.sheet.xml, other);
        lemma_file_stored(editor.new_files, path, empty, other);
    }
}

/// The tags of a new sheet and of its relationship.
proof fn lemma_entries(name: Seq<char>, id: nat, relation: nat, file: nat)
    ensures
        sheet_entry(name, id, relation) == sheet_text(name, id, relation),
        relation_entry(relation, file) == relation_text(
            relation,
            "worksheets/sheet"@ + decimal(file) + ".xml"@,
        ),
        sheet_file(file) == "xl/"@ + ("worksheets/sheet"@ + decimal(file) + ".xml"@),
{
    assert(sheet_entry(name, id, relation) =~= sheet_text(name, id, relation));
    assert(sheet_file(file) =~= "xl/"@ + ("worksheets/sheet"@ + decimal(file) + ".xml"@)) by {
        reveal_strlit("xl/worksheets/sheet");
        reveal_strlit("xl/");
        reveal_strlit("worksheets/sheet");
        assert("xl/worksheets/sheet"@ =~= "xl/"@ + "worksheets/sheet"@);
    }
    lemma_target(relation, file);
}

/// The target of a new relationship.
#[verifier::spinoff_prover]
#[verifier::rlimit(60)]
proof fn lemma_target(relation: nat, file: nat)
    ensures
        relation_entry(relation, file) == relation_text(
            relation,
            "worksheets/sheet"@ + decimal(file) + ".xml"@,
        ),
{
    let long =
        "\" Type=\"http://schemas.openxmlformats.org/officeDocument/2006/relationships/worksheet\" Target=\"worksheets/sheet"@;
    let short =
        "\" Type=\"http://schemas.openxmlformats.org/officeDocument/2006/relationships/worksheet\" Target=\""@;
    assert(long =~= short + "worksheets/sheet"@) by {
        reveal_strlit(
            "\" Type=\"http://schemas.openxmlformats.org/officeDocument/2006/relationships/worksheet\" Target=\"worksheets/sheet",
        );
        reveal_strlit(
            "\" Type=\"http://schemas.openxmlformats.org/officeDocument/2006/relationships/worksheet\" Target=\"",
        );
        reveal_strlit("worksheets/sheet");
    }
    assert(".xml\"/>"@ =~= ".xml"@ + "\"/>"@) by {
        reveal_strlit(".xml\"/>");
        reveal_strlit(".xml");
        reveal_strlit("\"/>");
    }
    assert(relation_entry(relation, file) =~= relation_text(
        relation,
        "worksheets/sheet"@ + decimal(file) + ".xml"@,
    ));
}

/// A sheet whose name is taken is refused, and so is one for a workbook without a list of sheets or of
/// relationships; the editor stays as it was.
pub proof fn law_worksheet_refused(
    editor: EditorView,
    sheets: Seq<Seq<char>>,
    names: Seq<Seq<char>>,
    name: Seq<char>,
)
    ensures
        sheets.contains(name) ==> worksheet_added(editor, sheets, names, name) == Some(
            EditorOutcome { editor, result: Err(ErrorView::SheetAlreadyExists(name)) },
        ),
        worksheet_added(editor, sheets, names, name) matches Some(outcome) ==> {
            &&& outcome.result is Err ==> outcome.editor == editor
            &&& !sheets.contains(name) ==> {
                &&& rfind(editor.workbook, utf8("</sheets>"@)) is None ==> outcome.result == Err::<
                    (),
                    ErrorView,
                >(ErrorView::XmlTagNotFound("</sheets>"@))
                &&& rfind(editor.workbook, utf8("</sheets>"@)) is Some && find(
                    editor.workbook,
                    utf8("<sheets"@),
                ) is None ==> outcome.result == Err::<(), ErrorView>(
                    ErrorView::XmlTagNotFound("<sheets>"@),
                )
                &&& rfind(editor.rels, utf8("</Relationships>"@)) is None ==> outcome.result is Err
            }
        },
{
}

/// A sheet is not added where its name is taken, where one of its numbers cannot grow, and where the
/// workbook or its relationships have no place for it. Nothing changes then.
pub proof fn law_worksheet_not_added(
    editor: EditorView,
    sheets: Seq<Seq<char>>,
    names: Seq<Seq<char>>,
    name: Seq<char>,
)
    ensures
        ({
            let id = largest_sheet_id(elements(xml_events(editor.workbook), utf8("sheet"@)));
            let relation = largest_relation(
                elements(xml_events(editor.rels), utf8("Relationship"@)),
            );
            let file = largest_file(names + part_names(editor.new_files));
            let grows = id < u32::MAX && relation < u32::MAX && file < usize::MAX;
            let added = worksheet_added(editor, sheets, names, name);
            let end = rfind(editor.workbook, utf8("</sheets>"@));
            let start = find(editor.workbook, utf8("<sheets"@));
            &&& added is None <==> !sheets.contains(name) && !grows
            &&& !sheets.contains(name) && grows && end is None ==> added == Some(
                EditorOutcome { editor, result: Err(ErrorView::XmlTagNotFound("</sheets>"@)) },
            )
            &&& !sheets.contains(name) && grows && end is Some && start is None ==> added == Some(
                EditorOutcome { editor, result: Err(ErrorView::XmlTagNotFound("<sheets>"@)) },
            )
            &&& !sheets.contains(name) && grows && end is Some && (start matches Some(at) && find_from(
                editor.workbook,
                utf8(">"@),
                at,
            ) is Some) && rfind(editor.rels, utf8("</Relationships>"@)) is None ==> added == Some(
                EditorOutcome {
                    editor,
                    result: Err(ErrorView::XmlTagNotFound("</Relationships>"@)),
                },
            )
        }),
{
}

// ---- opening ------------------------------------------------------------------------------

/// The first file of a package under a name is the one that is read.
pub proof fn law_part_read(a: Seq<PartView>, part: PartView, b: Seq<PartView>, name: Seq<char>)
    requires
        forall|i: int| 0 <= i < a.len() ==> (#[trigger] a[i]).name != name,
    ensures
        part.name == name ==> part_content(a.push(part) + b, name) == Some(part.content),
        part_content(a, name) is None,
{
    let all = a.push(part) + b;
    lemma_part_from(all, name, 0);
    lemma_part_from(a, name, 0);
    if part.name == name {
        assert(all[a.len() as int].name == name);
        let p = part_at(all, name)->0;
        if p < a.len() {
            assert(all[p] == a[p]);
        }
        assert(p == a.len());
    }
}

/// An editor for a sheet holds what the package holds: the file of the sheet, the style sheet, the
/// workbook and its relationships. A package without one of them is refused by its name.
pub proof fn law_sheet_opened(parts: Seq<PartView>, id: nat)
    ensures
        ({
            let path = "xl/worksheets/sheet"@ + decimal(id) + ".xml"@;
            match opened_sheet(parts, id) {
                Ok(editor) => {
                    &&& editor.sheet_path == path
                    &&& part_content(parts, path) == Some(editor.sheet.xml)
                    &&& part_content(parts, "xl/styles.xml"@) == Some(editor.styles)
                    &&& part_content(parts, "xl/workbook.xml"@) == Some(editor.workbook)
                    &&& part_content(parts, "xl/_rels/workbook.xml.rels"@) == Some(editor.rels)
                    &&& editor.new_files.len() == 0
                    &&& editor.sheet.last_row == last_row_of(
                        elements(xml_events(editor.sheet.xml), utf8("row"@)),
                    )
                },
                Err(e) => e matches ErrorView::FileNotFound(file) && part_content(parts, file) is None
                    && (file == path || file == "xl/styles.xml"@ || file == "xl/workbook.xml"@ || file
                    == "xl/_rels/workbook.xml.rels"@),
            }
        }),
{
}

/// A sheet that is opened by its name is the one with the number of its place among the names; the
/// first one counts, and a name that is not there is refused.
pub proof fn law_opened_by_name(parts: Seq<PartView>, names: Seq<Seq<char>>, name: Seq<char>, i: int)
    requires
        scanned(parts) == Ok::<Seq<Seq<char>>, ErrorView>(names),
    ensures
        0 <= i < names.len() && names[i] == name && (forall|k: int|
            0 <= k < i ==> #[trigger] names[k] != name) ==> opened(parts, name) == opened_sheet(
            parts,
            (i + 1) as nat,
        ),
        !names.contains(name) ==> opened(parts, name) == Err::<EditorView, ErrorView>(
            ErrorView::SheetNotFound(name),
        ),
{
    lemma_name_from(names, name, 0);
}

/// The first place of a name in a list.
proof fn lemma_name_from(names: Seq<Seq<char>>, name: Seq<char>, i: int)
    requires
        0 <= i,
    ensures
        match name_from(names, name, i) {
            Some(p) => i <= p < names.len() && names[p] == name && (forall|k: int|
                i <= k < p ==> #[trigger] names[k] != name),
            None => forall|k: int| i <= k < names.len() ==> #[trigger] names[k] != name,
        },
    decreases names.len() - i,
{
    if i < names.len() && names[i] != name {
        lemma_name_from(names, name, i + 1);
    }
}

/// The names of the sheets of a package are those in its workbook.
pub proof fn law_scanned(parts: Seq<PartView>)
    ensures
        part_content(parts, "xl/workbook.xml"@) matches Some(workbook) ==> scanned(parts) == Ok::<
            Seq<Seq<char>>,
            ErrorView,
        >(sheet_names(elements(xml_events(workbook), utf8("sheet"@)))),
        part_content(parts, "xl/workbook.xml"@) is None ==> scanned(parts) == Err::<
            Seq<Seq<char>>,
            ErrorView,
        >(ErrorView::FileNotFound("xl/workbook.xml"@)),
{
}

// ---- writing ------------------------------------------------------------------------------

/// The files of a package are written in their order and under their names.
pub proof fn law_saved_in_order(editor: EditorView, parts: Seq<PartView>, i: int)
    requires
        0 <= i < parts.len(),
    ensures
        i < saved(editor, parts).len(),
        saved(editor, parts)[i].name == parts[i].name,
        forall|k: int|
            parts.len() <= k < saved(editor, parts).len() ==> !part_names(parts).contains(
                (#[trigger] saved(editor, parts)[k]).name,
            ),
{
    let names = part_names(parts);
    let entries = entry_steps(editor, names);
    let extra = extra_steps(editor, names, 0);
    let all = saved(editor, parts);
    assert(names[i] == parts[i].name);
    assert(save_steps(editor, names)[i] == entries[i]);
    assert forall|k: int| parts.len() <= k < all.len() implies !names.contains(
        (#[trigger] all[k]).name,
    ) by {
        lemma_extra_names(editor, names, 0);
        assert(save_steps(editor, names)[k] == extra[k - parts.len()]);
    }
}

/// The files that are written besides those of the package have names that differ from each other.
pub proof fn law_new_names_differ(editor: EditorView, parts: Seq<PartView>, i: int, j: int)
    requires
        parts.len() <= i < j < saved(editor, parts).len(),
    ensures
        saved(editor, parts)[i].name != saved(editor, parts)[j].name,
{
    let names = part_names(parts);
    let extra = extra_steps(editor, names, 0);
    lemma_extra_places(editor, names, 0, i - parts.len(), j - parts.len());
    assert(save_steps(editor, names)[i] == extra[i - parts.len()]);
    assert(save_steps(editor, names)[j] == extra[j - parts.len()]);
}

/// The files that are written besides those of the package stand in the order of the new files.
proof fn lemma_extra_places(editor: EditorView, names: Seq<Seq<char>>, k: int, i: int, j: int)
    requires
        0 <= k,
        0 <= i < j < extra_steps(editor, names, k).len(),
    ensures
        ({
            let extra = extra_steps(editor, names, k);
            extra[i] matches StepView::Write(a) && extra[j] matches StepView::Write(b) && a.name
                != b.name
        }),
    decreases editor.new_files.len() - k,
{
    if k < editor.new_files.len() {
        let rest = extra_steps(editor, names, k + 1);
        let all = extra_steps(editor, names, k);
        if all.len() == rest.len() {
            assert(all == rest);
            lemma_extra_places(editor, names, k + 1, i, j);
        } else {
            assert(all[j] == rest[j - 1]);
            if i > 0 {
                assert(all[i] == rest[i - 1]);
                lemma_extra_places(editor, names, k + 1, i - 1, j - 1);
            } else {
                lemma_extra_from(editor, names, k + 1, j - 1);
            }
        }
    }
}

/// The new files from a place on.
proof fn lemma_extra_from(editor: EditorView, names: Seq<Seq<char>>, k: int, j: int)
    requires
        0 <= k,
        0 <= j < extra_steps(editor, names, k).len(),
    ensures
        extra_steps(editor, names, k)[j] matches StepView::Write(part) && (part_at(
            editor.new_files,
            part.name,
        ) matches Some(p) && k <= p),
    decreases editor.new_files.len() - k,
{
    if k < editor.new_files.len() {
        let rest = extra_steps(editor, names, k + 1);
        let all = extra_steps(editor, names, k);
        if all.len() == rest.len() {
            assert(all == rest);
            lemma_extra_from(editor, names, k + 1, j);
        } else if j > 0 {
            assert(all[j] == rest[j - 1]);
            lemma_extra_from(editor, names, k + 1, j - 1);
        }
    }
}

/// The files that are written besides those of the package have other names.
proof fn lemma_extra_names(editor: EditorView, names: Seq<Seq<char>>, j: int)
    ensures
        forall|k: int|
            0 <= k < extra_steps(editor, names, j).len() ==> ((#[trigger] extra_steps(
                editor,
                names,
                j,
            )[k]) matches StepView::Write(part) && !names.contains(part.name)),
    decreases editor.new_files.len() - j,
{
    if 0 <= j < editor.new_files.len() {
        lemma_extra_names(editor, names, j + 1);
        let rest = extra_steps(editor, names, j + 1);
        let all = extra_steps(editor, names, j);
        assert forall|k: int| 0 <= k < all.len() implies ((#[trigger] all[k]) matches StepView::Write(
            part,
        ) && !names.contains(part.name)) by {
            if all.len() == rest.len() {
                assert(all == rest);
            } else if k > 0 {
                assert(all[k] == rest[k - 1]);
            }
        }
    }
}

/// Where one worksheet alone is written, it holds its new contents, and every other file what it held.
pub proof fn law_sheet_saved(
    parts: Seq<PartView>,
    path: Seq<char>,
    xml: Seq<u8>,
    i: int,
)
    requires
        0 <= i < parts.len(),
    ensures
        ({
            let after = applied(parts, sheet_steps(part_names(parts), path, xml));
            &&& after.len() == parts.len()
            &&& after[i].name == parts[i].name
            &&& parts[i].name == path ==> after[i].content == xml
            &&& parts[i].name != path ==> after[i].content == parts[i].content
        }),
{
    assert(part_names(parts)[i] == parts[i].name);
}

} // verus!
