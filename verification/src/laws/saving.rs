//! Saving, opening and adding worksheets.

use vstd::prelude::*;
use crate::added::{file_stored, taken_paths, worksheet_added, EMPTY_SHEET};
use crate::brush::BookOutcome;
use crate::edit::{book_edited, sheet_edited};
use crate::editor::{opened_sheet, EditorView};
use crate::package::{applied, entry_steps, extra_steps, part_names, save_steps, StepView};
use crate::sheet::{SheetOutcome, SheetView};
use crate::text::{decimal, lemma_decimal_reads_back, utf8};
use crate::workbook::{
    file_number, largest_file, largest_relation, largest_sheet_id, last_row_of, lemma_part_from,
    part_at, part_content, relation_number, sheet_file, PartView,
};
use crate::xml::{attribute_text, elements, xml_events, TagView};

verus! {

// ---- what is in a saved package -----------------------------------------------------------

/// What the file called `name` holds in the package that an editor saves: the worksheet of the editor,
/// the contents of a new file, those of the editor in place of the workbook, its relationships and
/// the style sheet, and otherwise what it held before.
pub open spec fn saved_content(
    editor: EditorView,
    parts: Seq<PartView>,
    name: Seq<char>,
) -> Option<Seq<u8>> {
    let held = part_content(parts, name);
    match part_content(editor.new_files, name) {
        Some(content) => if name == editor.sheet_path {
            Some(editor.sheet.xml)
        } else {
            Some(content)
        },
        None => if held is None {
            None
        } else if name == editor.sheet_path {
            Some(editor.sheet.xml)
        } else if name == "xl/workbook.xml"@ {
            Some(editor.workbook)
        } else if name == "xl/_rels/workbook.xml.rels"@ {
            Some(editor.rels)
        } else if name == "xl/styles.xml"@ {
            Some(editor.styles)
        } else {
            held
        },
    }
}

/// The package that an editor saves.
pub open spec fn saved(editor: EditorView, parts: Seq<PartView>) -> Seq<PartView> {
    applied(parts, save_steps(editor, part_names(parts)))
}

/// A file of two lists of files is looked for in the first one first.
proof fn lemma_part_concat(a: Seq<PartView>, b: Seq<PartView>, name: Seq<char>)
    ensures
        part_content(a + b, name) == (match part_content(a, name) {
            Some(content) => Some(content),
            None => part_content(b, name),
        }),
{
    lemma_part_from(a, name, 0);
    lemma_part_from(b, name, 0);
    lemma_part_from(a + b, name, 0);
    let both = a + b;
    match part_at(a, name) {
        Some(i) => {
            assert(both[i] == a[i]);
            let p = part_at(both, name)->0;
            if p < i {
                assert(both[p] == a[p]);
            }
        },
        None => {
            if let Some(p) = part_at(both, name) {
                if p < a.len() {
                    assert(both[p] == a[p]);
                }
                assert(both[p] == b[p - a.len()]);
            }
            if let Some(j) = part_at(b, name) {
                assert(both[a.len() + j] == b[j]);
                let p = part_at(both, name)->0;
                assert(both[p] == b[p - a.len()]);
            }
        },
    }
}

/// What the first list of steps makes of a package, and then the second.
proof fn lemma_applied_concat(parts: Seq<PartView>, a: Seq<StepView>, b: Seq<StepView>)
    ensures
        applied(parts, a + b) == applied(parts, a) + applied(parts, b),
{
    assert(applied(parts, a + b) =~= applied(parts, a) + applied(parts, b));
}

/// What the new files hold that are written behind those of the package.
proof fn lemma_extra_content(editor: EditorView, parts: Seq<PartView>, name: Seq<char>, j: int)
    requires
        0 <= j,
        !part_names(parts).contains(name),
    ensures
        part_content(applied(parts, extra_steps(editor, part_names(parts), j)), name) == (
        match part_at(editor.new_files, name) {
            Some(k) if k >= j => if name == editor.sheet_path {
                Some(editor.sheet.xml)
            } else {
                Some(editor.new_files[k].content)
            },
            _ => None,
        }),
    decreases editor.new_files.len() - j,
{
    let names = part_names(parts);
    lemma_part_from(editor.new_files, name, 0);
    if j < editor.new_files.len() {
        lemma_extra_content(editor, parts, name, j + 1);
        let file = editor.new_files[j];
        lemma_part_from(editor.new_files, file.name, 0);
        let rest = extra_steps(editor, names, j + 1);
        let steps = extra_steps(editor, names, j);
        if !(names.contains(file.name) || part_at(editor.new_files, file.name) != Some(j)) {
            let step = steps[0];
            assert(steps =~= seq![step] + rest);
            lemma_applied_concat(parts, seq![step], rest);
            let first = applied(parts, seq![step]);
            lemma_part_concat(first, applied(parts, rest), name);
            lemma_part_from(first, name, 0);
            assert(first.len() == 1);
            assert(first[0].name == file.name);
        }
    }
}

/// The package that an editor saves holds under each name what `saved_content` says.
pub proof fn law_save(editor: EditorView, parts: Seq<PartView>, name: Seq<char>)
    ensures
        part_content(saved(editor, parts), name) == saved_content(editor, parts, name),
{
    let names = part_names(parts);
    let entries = entry_steps(editor, names);
    let extras = extra_steps(editor, names, 0);
    lemma_applied_concat(parts, entries, extras);
    let front = applied(parts, entries);
    lemma_part_concat(front, applied(parts, extras), name);
    lemma_part_from(front, name, 0);
    lemma_part_from(parts, name, 0);
    lemma_part_from(editor.new_files, name, 0);
    assert forall|k: int| 0 <= k < parts.len() implies front[k].name == (#[trigger] parts[k]).name by {
        assert(names[k] == parts[k].name);
        lemma_part_from(editor.new_files, names[k], 0);
    }
    match part_at(parts, name) {
        Some(k) => {
            let p = part_at(front, name)->0;
            assert(front[k].name == name);
            assert(parts[p].name == name);
            assert(p == k);
            assert(names[k] == name);
        },
        None => {
            assert(!names.contains(name)) by {
                if names.contains(name) {
                    let k = choose|k: int| 0 <= k < names.len() && names[k] == name;
                    assert(parts[k].name == name);
                }
            }
            if let Some(p) = part_at(front, name) {
                assert(parts[p].name == name);
            }
            lemma_extra_content(editor, parts, name, 0);
        },
    }
}

// ---- opening a saved package --------------------------------------------------------------

/// An editor works on a package: the package holds the workbook, its relationships and the style
/// sheet, which no new file replaces, and the worksheet is a file of the package or a new one.
pub open spec fn works_on(editor: EditorView, parts: Seq<PartView>) -> bool {
    &&& part_at(parts, "xl/workbook.xml"@) is Some
    &&& part_at(parts, "xl/_rels/workbook.xml.rels"@) is Some
    &&& part_at(parts, "xl/styles.xml"@) is Some
    &&& part_at(editor.new_files, "xl/workbook.xml"@) is None
    &&& part_at(editor.new_files, "xl/_rels/workbook.xml.rels"@) is None
    &&& part_at(editor.new_files, "xl/styles.xml"@) is None
    &&& exists|n: nat| editor.sheet_path == #[trigger] sheet_file(n)
    &&& part_at(parts, editor.sheet_path) is Some || part_at(
        editor.new_files,
        editor.sheet_path,
    ) is Some
}

/// The file of a sheet is none of the other files that an editor changes.
proof fn lemma_sheet_file(n: nat)
    ensures
        sheet_file(n) != "xl/workbook.xml"@,
        sheet_file(n) != "xl/_rels/workbook.xml.rels"@,
        sheet_file(n) != "xl/styles.xml"@,
{
    reveal_strlit("xl/worksheets/sheet");
    reveal_strlit("xl/workbook.xml");
    reveal_strlit("xl/_rels/workbook.xml.rels");
    reveal_strlit("xl/styles.xml");
    assert(sheet_file(n)[3] == 'w');
    assert(sheet_file(n)[7] == 's');
    assert("xl/workbook.xml"@[7] == 'b');
    assert("xl/_rels/workbook.xml.rels"@[3] == '_');
    assert("xl/styles.xml"@[3] == 's');
}

/// An editor that was opened works on the package that it was opened from.
pub proof fn law_opened_works_on(parts: Seq<PartView>, id: nat)
    ensures
        opened_sheet(parts, id) matches Ok(editor) ==> works_on(editor, parts),
{
    if let Ok(editor) = opened_sheet(parts, id) {
        assert(editor.sheet_path == sheet_file(id));
        assert(editor.new_files =~= Seq::empty());
    }
}

/// A package that an editor saved can be opened again, and gives back the worksheet, the style
/// sheet, the workbook and its relationships as they were saved.
pub proof fn law_open_after_save(editor: EditorView, parts: Seq<PartView>, id: nat)
    requires
        works_on(editor, parts),
        editor.sheet_path == sheet_file(id),
    ensures
        opened_sheet(saved(editor, parts), id) == Ok::<EditorView, crate::error::ErrorView>(
            EditorView {
                sheet: SheetView {
                    last_row: last_row_of(
                        elements(xml_events(editor.sheet.xml), utf8("row"@)),
                    ),
                    ..editor.sheet
                },
                new_files: Seq::empty(),
                ..editor
            },
        ),
{
    law_save(editor, parts, sheet_file(id));
    law_save(editor, parts, "xl/workbook.xml"@);
    law_save(editor, parts, "xl/_rels/workbook.xml.rels"@);
    law_save(editor, parts, "xl/styles.xml"@);
    lemma_sheet_file(id);
    reveal_strlit("xl/workbook.xml");
    reveal_strlit("xl/_rels/workbook.xml.rels");
    reveal_strlit("xl/styles.xml");
    assert("xl/workbook.xml"@[3] == 'w');
    assert("xl/_rels/workbook.xml.rels"@[3] == '_');
    assert("xl/styles.xml"@[3] == 's');
}

/// No operation on the worksheet or the style sheet changes which package an editor works on.
pub proof fn law_edits_keep_works_on(
    editor: EditorView,
    parts: Seq<PartView>,
    on_sheet: Option<SheetOutcome>,
    on_book: Option<BookOutcome>,
)
    requires
        works_on(editor, parts),
    ensures
        sheet_edited(editor, on_sheet) matches Some(outcome) ==> works_on(outcome.editor, parts),
        book_edited(editor, on_book) matches Some(outcome) ==> works_on(outcome.editor, parts),
{
    let n = choose|n: nat| editor.sheet_path == #[trigger] sheet_file(n);
    if let Some(outcome) = sheet_edited(editor, on_sheet) {
        assert(outcome.editor.sheet_path == sheet_file(n));
    }
    if let Some(outcome) = book_edited(editor, on_book) {
        assert(outcome.editor.sheet_path == sheet_file(n));
    }
}

/// What was edited in a sheet that was opened, and saved, is what is opened again.
pub proof fn law_edits_survive(
    parts: Seq<PartView>,
    id: nat,
    sheet: SheetView,
    styles: Seq<u8>,
)
    ensures
        opened_sheet(parts, id) matches Ok(editor) ==> {
            let edited = EditorView { sheet, styles, ..editor };
            opened_sheet(saved(edited, parts), id) matches Ok(again) && again.sheet.xml == sheet.xml
                && again.styles == styles && again.workbook == editor.workbook && again.rels
                == editor.rels
        },
{
    if let Ok(editor) = opened_sheet(parts, id) {
        let edited = EditorView { sheet, styles, ..editor };
        law_opened_works_on(parts, id);
        assert(edited.sheet_path == sheet_file(id));
        law_open_after_save(edited, parts, id);
    }
}

/// A file that an editor has not changed and that is not new holds in the saved package what it held
/// before.
pub proof fn law_other_files_kept(editor: EditorView, parts: Seq<PartView>, name: Seq<char>)
    requires
        part_at(editor.new_files, name) is None,
        name != editor.sheet_path,
        name != "xl/workbook.xml"@,
        name != "xl/_rels/workbook.xml.rels"@,
        name != "xl/styles.xml"@,
    ensures
        part_content(saved(editor, parts), name) == part_content(parts, name),
{
    law_save(editor, parts, name);
}

// ---- new worksheets -----------------------------------------------------------------------

/// The number of the file of a sheet is read back from its path.
pub proof fn law_file_number_round_trip(n: nat)
    requires
        n <= usize::MAX,
    ensures
        file_number(sheet_file(n)) == Some(n as usize),
{
    let head = "xl/worksheets/sheet"@;
    let tail = ".xml"@;
    let digits = decimal(n);
    let path = sheet_file(n);
    assert(path.take(head.len() as int) =~= head);
    assert(path.skip(path.len() - tail.len()) =~= tail);
    assert(path.subrange(head.len() as int, path.len() - tail.len()) =~= digits);
    lemma_decimal_reads_back(n);
}

/// No file of a sheet has a larger number than the largest.
proof fn lemma_largest_file(paths: Seq<Seq<char>>, i: int)
    requires
        0 <= i < paths.len(),
    ensures
        file_number(paths[i]) matches Some(n) ==> n <= largest_file(paths),
    decreases paths.len(),
{
    if i < paths.len() - 1 {
        lemma_largest_file(paths.drop_last(), i);
        assert(paths.drop_last()[i] == paths[i]);
    }
}

/// The path of a sheet that is added is not taken.
pub proof fn law_new_path_is_free(editor: EditorView, names: Seq<Seq<char>>)
    requires
        largest_file(taken_paths(editor, names)) < usize::MAX,
    ensures
        ({
            let path = sheet_file((largest_file(taken_paths(editor, names)) + 1) as nat);
            &&& !names.contains(path)
            &&& part_at(editor.new_files, path) is None
        }),
{
    let paths = taken_paths(editor, names);
    let n = (largest_file(paths) + 1) as nat;
    let path = sheet_file(n);
    law_file_number_round_trip(n);
    if names.contains(path) {
        let i = choose|i: int| 0 <= i < names.len() && names[i] == path;
        assert(paths[i] == path);
        lemma_largest_file(paths, i);
    }
    lemma_part_from(editor.new_files, path, 0);
    if let Some(k) = part_at(editor.new_files, path) {
        assert(paths[names.len() + k] == path);
        lemma_largest_file(paths, names.len() + k);
    }
}

/// No sheet has a larger `sheetId` than the largest, so the one behind it is free for a new sheet.
pub proof fn law_new_sheet_id_is_free(sheets: Seq<TagView>, i: int)
    requires
        0 <= i < sheets.len(),
    ensures
        attribute_text(sheets[i], "sheetId"@) matches Some(text) ==> crate::workbook::number_or_zero(
            text,
        ) <= largest_sheet_id(sheets),
    decreases sheets.len(),
{
    if i < sheets.len() - 1 {
        law_new_sheet_id_is_free(sheets.drop_last(), i);
        assert(sheets.drop_last()[i] == sheets[i]);
    }
}

/// No relationship has a larger number than the largest, so the one behind it is free for a new one.
pub proof fn law_new_relation_is_free(relations: Seq<TagView>, i: int)
    requires
        0 <= i < relations.len(),
    ensures
        attribute_text(relations[i], "Id"@) matches Some(id) ==> relation_number(id)
            <= largest_relation(relations),
    decreases relations.len(),
{
    if i < relations.len() - 1 {
        law_new_relation_is_free(relations.drop_last(), i);
        assert(relations.drop_last()[i] == relations[i]);
    }
}

/// What is found among files when one of them is stored.
pub proof fn lemma_file_stored(files: Seq<PartView>, name: Seq<char>, content: Seq<u8>, other: Seq<char>)
    ensures
        part_content(file_stored(files, name, content), other) == (if other == name {
            Some(content)
        } else {
            part_content(files, other)
        }),
        part_at(file_stored(files, name, content), other) is Some <==> (other == name || part_at(
            files,
            other,
        ) is Some),
{
    let stored = file_stored(files, name, content);
    lemma_part_from(files, name, 0);
    lemma_part_from(files, other, 0);
    lemma_part_from(stored, other, 0);
    match part_at(files, name) {
        Some(i) => {
            assert forall|k: int| 0 <= k < files.len() implies (#[trigger] stored[k]).name
                == files[k].name by {}
            if let Some(p) = part_at(stored, other) {
                assert(files[p].name == other);
            }
            if let Some(p) = part_at(files, other) {
                assert(stored[p].name == other);
            }
            if other == name {
                let p = part_at(stored, other)->0;
                if p < i {
                    assert(files[p].name == name);
                }
            }
        },
        None => {
            let new = PartView { name, content };
            assert(stored =~= files + seq![new]);
            lemma_part_concat(files, seq![new], other);
            lemma_part_from(seq![new], other, 0);
            if let Some(p) = part_at(files, other) {
                assert(stored[p] == files[p]);
            }
            if other == name {
                assert(stored[files.len() as int].name == other);
                assert(seq![new][0] == new);
            }
            if let Some(p) = part_at(stored, other) {
                if p < files.len() {
                    assert(stored[p] == files[p]);
                }
            }
        },
    }
}

/// An editor that has added a sheet still works on its package; the package that it saves holds the
/// new worksheet as it is edited, and the worksheet that was open before as it was left.
pub proof fn law_added_works_on(
    editor: EditorView,
    parts: Seq<PartView>,
    sheets: Seq<Seq<char>>,
    name: Seq<char>,
)
    requires
        works_on(editor, parts),
    ensures
        worksheet_added(editor, sheets, part_names(parts), name) matches Some(outcome) ==> (
        outcome.result is Ok ==> {
            &&& works_on(outcome.editor, parts)
            &&& outcome.editor.sheet_path != editor.sheet_path
            &&& saved_content(outcome.editor, parts, outcome.editor.sheet_path) == Some(
                outcome.editor.sheet.xml,
            )
            &&& saved_content(outcome.editor, parts, editor.sheet_path) == Some(editor.sheet.xml)
        }),
{
    let names = part_names(parts);
    if let Some(outcome) = worksheet_added(editor, sheets, names, name) {
        if outcome.result is Ok {
            let file = (largest_file(taken_paths(editor, names)) + 1) as nat;
            let path = sheet_file(file);
            let after = outcome.editor;
            assert(after.sheet_path == path);
            law_new_path_is_free(editor, names);
            lemma_part_from(parts, path, 0);
            if let Some(k) = part_at(parts, path) {
                assert(names[k] == path);
            }
            lemma_part_from(parts, editor.sheet_path, 0);
            if path == editor.sheet_path {
                assert(part_at(parts, editor.sheet_path) is None);
                assert(part_at(editor.new_files, editor.sheet_path) is None);
            }
            lemma_sheet_file(file);
            let n = choose|n: nat| editor.sheet_path == #[trigger] sheet_file(n);
            lemma_sheet_file(n);
            let first = file_stored(editor.new_files, path, utf8(EMPTY_SHEET@));
            lemma_added_file(editor, path, "xl/workbook.xml"@);
            lemma_added_file(editor, path, "xl/_rels/workbook.xml.rels"@);
            lemma_added_file(editor, path, "xl/styles.xml"@);
            lemma_added_file(editor, path, path);
            lemma_added_file(editor, path, editor.sheet_path);
        }
    }
}

/// What is found among the new files when a sheet has been added at `path`.
proof fn lemma_added_file(editor: EditorView, path: Seq<char>, other: Seq<char>)
    ensures
        ({
            let files = file_stored(
                file_stored(editor.new_files, path, utf8(EMPTY_SHEET@)),
                editor.sheet_path,
                editor.sheet.xml,
            );
            &&& part_content(files, other) == (if other == editor.sheet_path {
                Some(editor.sheet.xml)
            } else if other == path {
                Some(utf8(EMPTY_SHEET@))
            } else {
                part_content(editor.new_files, other)
            })
            &&& part_at(files, other) is Some <==> (other == editor.sheet_path || other == path
                || part_at(editor.new_files, other) is Some)
        }),
{
    let first = file_stored(editor.new_files, path, utf8(EMPTY_SHEET@));
    lemma_file_stored(editor.new_files, path, utf8(EMPTY_SHEET@), other);
    lemma_file_stored(first, editor.sheet_path, editor.sheet.xml, other);
}

} // verus!
