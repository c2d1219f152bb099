//! What the views of values hold: nothing is left out and nothing is added.

use vstd::prelude::*;
use crate::coord::{target_view, Target, TargetView};
use crate::editor::{editor_result, EditorView, XlsxEditor};
use crate::error::{ErrorView, XlsxError};
use crate::package::{part_names, step_views, Step, StepView};
use crate::pattern::{match_views, Match};
use crate::styles::{optional_align, optional_attribute, optional_decimal, optional_str, AlignSpec};
use crate::text::{chars_views, decimal, table_views, text_views};
use crate::workbook::{part_views, Part};
use crate::xml::{event_views, tag_views, AttributeView, EventView, Tag, XmlEvent};

verus! {

/// A list of texts is seen text by text, and a table row by row.
pub proof fn law_texts_seen(
    texts: Seq<String>,
    table: Seq<Vec<String>>,
    list: Seq<Vec<char>>,
    i: int,
    j: int,
)
    ensures
        text_views(texts).len() == texts.len(),
        0 <= i < texts.len() ==> text_views(texts)[i] == texts[i]@,
        table_views(table).len() == table.len(),
        0 <= i < table.len() ==> table_views(table)[i].len() == table[i]@.len(),
        0 <= i < table.len() && 0 <= j < table[i]@.len() ==> table_views(table)[i][j] == table[i]@[j]@,
        chars_views(list).len() == list.len(),
        0 <= i < list.len() ==> chars_views(list)[i] == list[i]@,
{
}

/// What may be missing is seen as missing exactly where it is.
pub proof fn law_optional_seen(text: &str, align: &AlignSpec, head: Seq<char>, tail: Seq<char>)
    ensures
        optional_str(None) is None,
        optional_str(Some(text)) == Some(text@),
        optional_align(None) is None,
        optional_align(Some(align)) matches Some(seen) && {
            &&& seen.wrap == align.wrap
            &&& match align.horiz {
                None => seen.horiz is None,
                Some(horiz) => seen.horiz == Some(horiz@),
            }
            &&& match align.vert {
                None => seen.vert is None,
                Some(vert) => seen.vert == Some(vert@),
            }
        },
        optional_attribute(head, None, tail) == Seq::<char>::empty(),
        optional_attribute(head, Some(text@), tail) == head + text@ + tail,
        optional_decimal(None) is None,
        forall|n: u32| #[trigger] optional_decimal(Some(n)) == Some(decimal(n as nat)),
{
}

/// The files of a package, and the steps that it is saved with, are seen one by one.
pub proof fn law_parts_seen(parts: Seq<Part>, steps: Seq<Step>, i: int)
    ensures
        part_views(parts).len() == parts.len(),
        0 <= i < parts.len() ==> part_views(parts)[i].name == parts[i].name@ && part_views(
            parts,
        )[i].content == parts[i].content@,
        0 <= i < parts.len() ==> part_names(part_views(parts))[i] == parts[i].name@,
        part_names(part_views(parts)).len() == parts.len(),
        step_views(steps).len() == steps.len(),
        0 <= i < steps.len() ==> match steps[i] {
            Step::Copy(k) => step_views(steps)[i] == StepView::Copy(k as int),
            Step::Write(part) => step_views(steps)[i] matches StepView::Write(seen) && seen.name
                == part.name@ && seen.content == part.content@,
        },
{
}

/// The tags, the events and the matches of a document are seen one by one, a tag with all its
/// attributes.
pub proof fn law_tags_seen(
    tags: Seq<&Tag>,
    events: Seq<XmlEvent>,
    matches: Seq<Match>,
    i: int,
    j: int,
)
    ensures
        tag_views(tags).len() == tags.len(),
        0 <= i < tags.len() ==> {
            let seen = tag_views(tags)[i];
            &&& seen.name == tags[i].name@
            &&& seen.closed == tags[i].closed
            &&& seen.attributes.len() == tags[i].attributes@.len()
            &&& 0 <= j < seen.attributes.len() ==> match tags[i].attributes@[j] {
                None => seen.attributes[j] is None,
                Some(a) => seen.attributes[j] == Some(AttributeView { key: a.key@, value: a.value@ }),
            }
        },
        event_views(events).len() == events.len(),
        0 <= i < events.len() ==> match events[i] {
            XmlEvent::Open(tag) => event_views(events)[i] == EventView::Open(tag@),
            XmlEvent::End(name) => event_views(events)[i] == EventView::End(name@),
            XmlEvent::Text => event_views(events)[i] is Text,
            XmlEvent::Other => event_views(events)[i] is Other,
        },
        match_views(matches).len() == matches.len(),
        0 <= i < matches.len() ==> match_views(matches)[i].start == matches[i].start && match_views(
            matches,
        )[i].text == matches[i].text@,
{
}

/// An editor that was asked for, and a target, are seen as they are, or with their errors.
pub proof fn law_asked_seen(
    editor: XlsxEditor,
    name: String,
    c0: u32,
    r0: u32,
    c1: u32,
    r1: u32,
    error: XlsxError,
)
    ensures
        editor_result(Ok(editor)) == Ok::<EditorView, ErrorView>(editor@),
        editor_result(Err(error)) == Err::<EditorView, ErrorView>(error@),
        target_view(Ok(Target::Cell(name))) == Ok::<TargetView, ErrorView>(TargetView::Cell(name@)),
        target_view(Ok(Target::Rect { c0, r0, c1, r1 })) == Ok::<TargetView, ErrorView>(
            TargetView::Rect { c0, r0, c1, r1 },
        ),
        target_view(Ok(Target::Col(c0))) == Ok::<TargetView, ErrorView>(TargetView::Col(c0)),
        target_view(Ok(Target::Row(r0))) == Ok::<TargetView, ErrorView>(TargetView::Row(r0)),
        target_view(Err(error)) == Err::<TargetView, ErrorView>(error@),
{
}

} // verus!
