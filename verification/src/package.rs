//! Writing an edited workbook back into a package.

use vstd::prelude::*;
use vstd::string::*;
use crate::bytes::copy_bytes;
use crate::editor::{EditorView, XlsxEditor};
use crate::text::{same_text, text_views};
use crate::workbook::{find_name, find_part, part_at, part_content, part_views, Part, PartView};

verus! {

/// One file of the package that is written: a copy of a file of the package that was read, by its
/// place, or a file with new contents.
pub enum Step {
    Copy(usize),
    Write(Part),
}

/// The view of a step.
pub enum StepView {
    Copy(int),
    Write(PartView),
}

impl View for Step {
    type V = StepView;

    open spec fn view(&self) -> StepView {
        match *self {
            Step::Copy(i) => StepView::Copy(i as int),
            Step::Write(part) => StepView::Write(part@),
        }
    }
}

/// The views of a list of steps.
pub open spec fn step_views(steps: Seq<Step>) -> Seq<StepView> {
    Seq::new(steps.len(), |i: int| steps[i]@)
}

/// The names of a list of files.
pub open spec fn part_names(parts: Seq<PartView>) -> Seq<Seq<char>> {
    Seq::new(parts.len(), |i: int| parts[i].name)
}

/// The package that steps make of the package `parts`.
pub open spec fn applied(parts: Seq<PartView>, steps: Seq<StepView>) -> Seq<PartView> {
    Seq::new(
        steps.len(),
        |k: int|
            match steps[k] {
                StepView::Copy(i) => parts[i],
                StepView::Write(part) => part,
            },
    )
}

/// A file that is written with `content`.
pub open spec fn written(name: Seq<char>, content: Seq<u8>) -> StepView {
    StepView::Write(PartView { name, content })
}

/// What becomes of the `i`-th file of the package, called `name`: the worksheet of the editor, a new
/// file, the workbook, its relationships and the style sheet of the editor take its place; any other
/// file is copied.
pub open spec fn entry_step(editor: EditorView, name: Seq<char>, i: int) -> StepView {
    if name == editor.sheet_path {
        written(name, editor.sheet.xml)
    } else {
        other_step(editor, name, i)
    }
}

/// What becomes of the `i`-th file of the package, called `name`, which is not the worksheet.
pub open spec fn other_step(editor: EditorView, name: Seq<char>, i: int) -> StepView {
    match part_content(editor.new_files, name) {
        Some(content) => written(name, content),
        None => if name == "xl/workbook.xml"@ {
            written(name, editor.workbook)
        } else if name == "xl/_rels/workbook.xml.rels"@ {
            written(name, editor.rels)
        } else if name == "xl/styles.xml"@ {
            written(name, editor.styles)
        } else {
            StepView::Copy(i)
        },
    }
}

/// What becomes of the files of the package.
pub open spec fn entry_steps(editor: EditorView, names: Seq<Seq<char>>) -> Seq<StepView> {
    Seq::new(names.len(), |i: int| entry_step(editor, names[i], i))
}

/// The new files, from the `j`-th on, that the package does not hold, each name once. The worksheet
/// of the editor is written as it stands.
pub open spec fn extra_steps(editor: EditorView, names: Seq<Seq<char>>, j: int) -> Seq<StepView>
    decreases editor.new_files.len() - j,
{
    if j < 0 || j >= editor.new_files.len() {
        Seq::empty()
    } else {
        let file = editor.new_files[j];
        let rest = extra_steps(editor, names, j + 1);
        if names.contains(file.name) || part_at(editor.new_files, file.name) != Some(j) {
            rest
        } else if file.name == editor.sheet_path {
            seq![written(file.name, editor.sheet.xml)] + rest
        } else {
            seq![StepView::Write(file)] + rest
        }
    }
}

/// How an editor is saved, where `names` are those of the files of the package that was read.
pub open spec fn save_steps(editor: EditorView, names: Seq<Seq<char>>) -> Seq<StepView> {
    entry_steps(editor, names) + extra_steps(editor, names, 0)
}

/// How one worksheet alone is saved.
pub open spec fn sheet_steps(names: Seq<Seq<char>>, sheet_path: Seq<char>, xml: Seq<u8>) -> Seq<
    StepView,
> {
    Seq::new(
        names.len(),
        |i: int|
            if names[i] == sheet_path {
                written(names[i], xml)
            } else {
                StepView::Copy(i)
            },
    )
}

/// A file with new contents.
fn write_step(name: &str, content: &[u8]) -> (step: Step)
    ensures
        step@ == written(name@, content@),
{
    Step::Write(Part { name: name.to_owned(), content: copy_bytes(content) })
}

impl XlsxEditor {
    /// What becomes of the `i`-th file of the package, called `name`.
    fn entry(&self, name: &str, i: usize) -> (step: Step)
        ensures
            step@ == entry_step(self@, name@, i as int),
    {
        if same_text(name, self.sheet_path.as_str()) {
            return write_step(name, self.sheet.xml.as_slice());
        }
        if let Some(k) = find_part(self.new_files.as_slice(), name) {
            assert(part_views(self.new_files@)[k as int] == self.new_files@[k as int]@);
            return write_step(name, self.new_files[k].content.as_slice());
        }
        if same_text(name, "xl/workbook.xml") {
            write_step(name, self.workbook_xml.as_slice())
        } else if same_text(name, "xl/_rels/workbook.xml.rels") {
            write_step(name, self.rels_xml.as_slice())
        } else if same_text(name, "xl/styles.xml") {
            write_step(name, self.styles_xml.as_slice())
        } else {
            Step::Copy(i)
        }
    }

    /// How the workbook is saved, where `names` are those of the files of the package that was read:
    /// the files of the package in their order, with the contents of the editor in place of those
    /// that it has changed, and then the files that are new.
    pub fn save(&self, names: &[String]) -> (steps: Vec<Step>)
        ensures
            step_views(steps@) == save_steps(self@, text_views(names@)),
    {
        let ghost listed = text_views(names@);
        let mut steps: Vec<Step> = Vec::new();
        let mut i: usize = 0;
        while i < names.len()
            invariant
                i <= names@.len(),
                listed == text_views(names@),
                step_views(steps@) == entry_steps(self@, listed).take(i as int),
            decreases names@.len() - i,
        {
            assert(listed[i as int] == names@[i as int]@);
            let ghost before = step_views(steps@);
            let step = self.entry(names[i].as_str(), i);
            steps.push(step);
            assert(step_views(steps@) =~= before.push(step@));
            assert(step_views(steps@) =~= entry_steps(self@, listed).take(i + 1));
            i += 1;
        }
        assert(entry_steps(self@, listed).take(i as int) =~= entry_steps(self@, listed));
        let ghost all = save_steps(self@, listed);
        let ghost files = part_views(self.new_files@);
        let mut j: usize = 0;
        while j < self.new_files.len()
            invariant
                j <= self.new_files@.len(),
                listed == text_views(names@),
                files == part_views(self.new_files@),
                all == save_steps(self@, listed),
                step_views(steps@) + extra_steps(self@, listed, j as int) == all,
            decreases self.new_files@.len() - j,
        {
            let ghost before = step_views(steps@);
            let ghost rest = extra_steps(self@, listed, j + 1);
            assert(files[j as int] == self.new_files@[j as int]@);
            let name = self.new_files[j].name.as_str();
            let first = match find_part(self.new_files.as_slice(), name) {
                Some(k) => k == j,
                None => false,
            };
            if find_name(names, name).is_none() && first {
                let step = if same_text(name, self.sheet_path.as_str()) {
                    write_step(name, self.sheet.xml.as_slice())
                } else {
                    write_step(name, self.new_files[j].content.as_slice())
                };
                steps.push(step);
                assert(step_views(steps@) =~= before.push(step@));
                assert(step_views(steps@) + rest =~= before + (seq![step@] + rest));
            }
            j += 1;
        }
        assert(step_views(steps@) =~= all);
        steps
    }

    /// How one worksheet alone is saved, where `names` are those of the files of the package that
    /// was read: the worksheet with its new contents, and a copy of every other file.
    pub fn _save_in_ram(names: &[String], sheet_path: &str, new_xml: &[u8]) -> (steps: Vec<Step>)
        ensures
            step_views(steps@) == sheet_steps(text_views(names@), sheet_path@, new_xml@),
    {
        let ghost all = sheet_steps(text_views(names@), sheet_path@, new_xml@);
        let mut steps: Vec<Step> = Vec::new();
        let mut i: usize = 0;
        while i < names.len()
            invariant
                i <= names@.len(),
                all == sheet_steps(text_views(names@), sheet_path@, new_xml@),
                step_views(steps@) == all.take(i as int),
            decreases names@.len() - i,
        {
            let ghost before = step_views(steps@);
            let step = if same_text(names[i].as_str(), sheet_path) {
                write_step(names[i].as_str(), new_xml)
            } else {
                Step::Copy(i)
            };
            steps.push(step);
            assert(step_views(steps@) =~= before.push(step@));
            assert(step_views(steps@) =~= all.take(i + 1));
            i += 1;
        }
        assert(all.take(i as int) =~= all);
        steps
    }
}

} // verus!
