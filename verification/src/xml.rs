//! Reading the tags of an XML document, and writing elements.

use quick_xml::events::Event;
use vstd::prelude::*;
use vstd::string::*;
use crate::bytes::{copy_bytes, push_bytes, same_bytes};
use crate::text::{lossy, lossy_string, utf8};

verus! {

// ---- events -------------------------------------------------------------------------------

/// `quick_xml::Reader`, a source of events.
#[verifier::external_type_specification]
#[verifier::external_body]
#[verifier::reject_recursive_types(R)]
pub struct ExReader<R>(quick_xml::Reader<R>);

/// An attribute of a tag, as it stands in the document.
pub struct Attribute {
    pub key: Vec<u8>,
    pub value: Vec<u8>,
}

/// A tag that opens an element, or is an element by itself if it is closed. An attribute that could
/// not be read is `None`.
pub struct Tag {
    pub name: Vec<u8>,
    pub closed: bool,
    pub attributes: Vec<Option<Attribute>>,
}

/// A piece of an XML document. Text that is only white space is none.
pub enum XmlEvent {
    Open(Tag),
    End(Vec<u8>),
    Text,
    Other,
}

/// The view of an attribute.
pub struct AttributeView {
    pub key: Seq<u8>,
    pub value: Seq<u8>,
}

/// The view of a tag.
pub struct TagView {
    pub name: Seq<u8>,
    pub closed: bool,
    pub attributes: Seq<Option<AttributeView>>,
}

/// The view of a piece of an XML document.
pub enum EventView {
    Open(TagView),
    End(Seq<u8>),
    Text,
    Other,
}

/// The view of an attribute that may be missing.
pub open spec fn attribute_view(attribute: Option<Attribute>) -> Option<AttributeView> {
    match attribute {
        Some(a) => Some(AttributeView { key: a.key@, value: a.value@ }),
        None => None,
    }
}

impl View for Tag {
    type V = TagView;

    open spec fn view(&self) -> TagView {
        TagView {
            name: self.name@,
            closed: self.closed,
            attributes: Seq::new(self.attributes@.len(), |i: int| attribute_view(self.attributes@[i])),
        }
    }
}

impl View for XmlEvent {
    type V = EventView;

    open spec fn view(&self) -> EventView {
        match *self {
            XmlEvent::Open(tag) => EventView::Open(tag@),
            XmlEvent::End(name) => EventView::End(name@),
            XmlEvent::Text => EventView::Text,
            XmlEvent::Other => EventView::Other,
        }
    }
}

/// The views of a list of tags.
pub open spec fn tag_views(tags: Seq<&Tag>) -> Seq<TagView> {
    Seq::new(tags.len(), |i: int| tags[i]@)
}

/// The views of a list of events.
pub open spec fn event_views(events: Seq<XmlEvent>) -> Seq<EventView> {
    Seq::new(events.len(), |i: int| events[i]@)
}

/// An attribute with copies of its key and its value.
fn new_attribute(key: &[u8], value: &[u8]) -> (attribute: Attribute)
    ensures
        attribute_view(Some(attribute)) == Some(AttributeView { key: key@, value: value@ }),
{
    Attribute { key: copy_bytes(key), value: copy_bytes(value) }
}

/// The events of the document `xml`, up to its end or to the first piece that cannot be read.
pub uninterp spec fn xml_events(xml: Seq<u8>) -> Seq<EventView>;

/// The events that `reader` has still to give, up to the end of the document or to the first
/// piece that cannot be read.
pub uninterp spec fn pending_events(reader: quick_xml::Reader<&[u8]>) -> Seq<EventView>;

/// Calls `Reader::from_reader` and turns on `Config::trim_text`: the new reader has all events of
/// the document to give. They are a function of the document, and no more in number than its
/// bytes, since each takes up one byte at least.
#[verifier::external_body]
fn event_reader(xml: &[u8]) -> (reader: quick_xml::Reader<&[u8]>)
    ensures
        pending_events(reader) == xml_events(xml@),
        pending_events(reader).len() <= xml@.len(),
{
    let mut reader = quick_xml::Reader::from_reader(xml);
    reader.config_mut().trim_text(true);
    reader
}

/// Calls `Reader::read_event`: takes the next event from the reader. `None` stands for the end of
/// the document or for a piece that cannot be read; nothing is said of the reader after that.
#[verifier::external_body]
fn next_event(reader: &mut quick_xml::Reader<&[u8]>) -> (event: Option<XmlEvent>)
    ensures
        match event {
            Some(e) => {
                &&& pending_events(*old(reader)).len() > 0
                &&& e@ == pending_events(*old(reader))[0]
                &&& pending_events(*final(reader)) == pending_events(*old(reader)).drop_first()
            },
            None => pending_events(*old(reader)).len() == 0,
        },
{
    let (closed, tag) = match reader.read_event().ok()? {
        Event::Start(tag) => (false, tag),
        Event::Empty(tag) => (true, tag),
        Event::End(tag) => return Some(XmlEvent::End(tag.name().0.to_vec())),
        Event::Eof => return None,
        Event::Text(_) | Event::CData(_) => return Some(XmlEvent::Text),
        _ => return Some(XmlEvent::Other),
    };
    let mut list = tag.attributes();
    let attributes = list.with_checks(false).map(|a| a.ok().map(|a| new_attribute(a.key.0, &a.value))).collect();
    Some(XmlEvent::Open(Tag { name: tag.name().0.to_vec(), closed, attributes }))
}

// ---- tags of a document -------------------------------------------------------------------

/// The tags called `name` that open an element, closed or not, in document order.
pub open spec fn elements(events: Seq<EventView>, name: Seq<u8>) -> Seq<TagView>
    decreases events.len(),
{
    if events.len() == 0 {
        Seq::empty()
    } else {
        let rest = elements(events.drop_first(), name);
        match events[0] {
            EventView::Open(tag) => if tag.name == name {
                seq![tag] + rest
            } else {
                rest
            },
            _ => rest,
        }
    }
}

/// The tags called `item` inside sections called `section`, in document order: those of the first such
/// section alone, or those of every one. `inside` says whether the events start within a section.
pub open spec fn listed(
    events: Seq<EventView>,
    section: Seq<u8>,
    item: Seq<u8>,
    inside: bool,
    first_only: bool,
) -> Seq<TagView>
    decreases events.len(),
{
    if events.len() == 0 {
        Seq::empty()
    } else {
        let rest = events.drop_first();
        match events[0] {
            EventView::Open(tag) => if !tag.closed && tag.name == section {
                listed(rest, section, item, true, first_only)
            } else if inside && tag.name == item {
                seq![tag] + listed(rest, section, item, inside, first_only)
            } else {
                listed(rest, section, item, inside, first_only)
            },
            EventView::End(name) => if name == section {
                if first_only {
                    Seq::empty()
                } else {
                    listed(rest, section, item, false, first_only)
                }
            } else {
                listed(rest, section, item, inside, first_only)
            },
            _ => listed(rest, section, item, inside, first_only),
        }
    }
}

/// The `xf` tags inside `cellXfs`, in document order.
pub open spec fn cell_xfs(events: Seq<EventView>, first_only: bool) -> Seq<TagView> {
    listed(events, utf8("cellXfs"@), utf8("xf"@), false, first_only)
}

/// The tags of the cells that hold a formula or a text, in document order. `open` is the cell that the
/// events start in, as long as it holds nothing.
pub open spec fn filled_cells(events: Seq<EventView>, open: Option<TagView>) -> Seq<TagView>
    decreases events.len(),
{
    if events.len() == 0 {
        Seq::empty()
    } else {
        let rest = events.drop_first();
        match events[0] {
            EventView::Open(tag) => if tag.name == utf8("c"@) {
                filled_cells(
                    rest,
                    if tag.closed {
                        None
                    } else {
                        Some(tag)
                    },
                )
            } else if tag.name == utf8("f"@) {
                filled_here(open) + filled_cells(rest, None)
            } else {
                filled_cells(rest, open)
            },
            EventView::End(name) => filled_cells(
                rest,
                if name == utf8("c"@) {
                    None
                } else {
                    open
                },
            ),
            EventView::Text => filled_here(open) + filled_cells(rest, None),
            EventView::Other => filled_cells(rest, open),
        }
    }
}

/// The cell that turns out to hold something, if there is one.
pub open spec fn filled_here(open: Option<TagView>) -> Seq<TagView> {
    match open {
        Some(tag) => seq![tag],
        None => Seq::empty(),
    }
}

/// The value of the first attribute called `key`, at or after the `i`-th.
pub open spec fn attribute_from(
    attributes: Seq<Option<AttributeView>>,
    key: Seq<u8>,
    i: int,
) -> Option<Seq<u8>>
    decreases attributes.len() - i,
{
    if i < 0 || i >= attributes.len() {
        None
    } else {
        match attributes[i] {
            Some(a) => if a.key == key {
                Some(a.value)
            } else {
                attribute_from(attributes, key, i + 1)
            },
            None => attribute_from(attributes, key, i + 1),
        }
    }
}

/// The value of the first attribute called `key`.
pub open spec fn attribute(tag: TagView, key: Seq<u8>) -> Option<Seq<u8>> {
    attribute_from(tag.attributes, key, 0)
}

/// The events of the document `xml`, up to its end or to the first piece that cannot be read.
pub fn events_of(xml: &[u8]) -> (events: Vec<XmlEvent>)
    ensures
        event_views(events@) == xml_events(xml@),
        events@.len() <= xml@.len(),
{
    let mut events: Vec<XmlEvent> = Vec::new();
    let mut reader = event_reader(xml);
    let ghost all = xml_events(xml@);
    assert(event_views(events@) + all =~= all);
    loop
        invariant_except_break
            event_views(events@) + pending_events(reader) == all,
            events@.len() + pending_events(reader).len() <= xml@.len(),
        ensures
            event_views(events@) == all,
            events@.len() <= xml@.len(),
        decreases pending_events(reader).len(),
    {
        let ghost before = event_views(events@);
        let ghost pending = pending_events(reader);
        match next_event(&mut reader) {
            Some(event) => {
                events.push(event);
                assert(event_views(events@) =~= before.push(event@));
                assert(event_views(events@) + pending.drop_first() =~= before + pending);
            },
            None => {
                assert(before + pending =~= before);
                break;
            },
        }
    }
    events
}

/// The tags called `name` that open an element, closed or not, among `events`.
pub fn elements_among<'a>(events: &'a [XmlEvent], name: &str) -> (tags: Vec<&'a Tag>)
    ensures
        tag_views(tags@) == elements(event_views(events@), utf8(name@)),
        tags@.len() <= events@.len(),
{
    let mut tags: Vec<&'a Tag> = Vec::new();
    let ghost all = event_views(events@);
    let ghost named = utf8(name@);
    assert(all.skip(0) =~= all);
    assert(tag_views(tags@) + elements(all, named) =~= elements(all, named));
    let mut i: usize = 0;
    while i < events.len()
        invariant
            i <= events@.len(),
            all == event_views(events@),
            named == utf8(name@),
            tag_views(tags@) + elements(all.skip(i as int), named) == elements(all, named),
            tags@.len() <= i,
        decreases events@.len() - i,
    {
        let ghost before = tag_views(tags@);
        let ghost rest = elements(all.skip(i + 1), named);
        assert(all.skip(i as int).drop_first() =~= all.skip(i + 1));
        assert(all.skip(i as int)[0] == events@[i as int]@);
        match &events[i] {
            XmlEvent::Open(tag) => {
                if same_bytes(tag.name.as_slice(), name.as_bytes()) {
                    tags.push(tag);
                    assert(tag_views(tags@) =~= before + seq![tag@]);
                    assert(tag_views(tags@) + rest =~= before + (seq![tag@] + rest));
                }
            },
            _ => {},
        }
        i += 1;
    }
    assert(all.skip(i as int) =~= Seq::<EventView>::empty());
    assert(tag_views(tags@) =~= elements(all, named));
    tags
}

/// The tags called `item` inside sections called `section` among `events`.
pub fn listed_among<'a>(events: &'a [XmlEvent], section: &str, item: &str, first_only: bool) -> (tags:
    Vec<&'a Tag>)
    ensures
        tag_views(tags@) == listed(
            event_views(events@),
            utf8(section@),
            utf8(item@),
            false,
            first_only,
        ),
        tags@.len() <= events@.len(),
{
    let mut tags: Vec<&'a Tag> = Vec::new();
    let mut inside: bool = false;
    let ghost all = event_views(events@);
    let ghost outer = utf8(section@);
    let ghost inner = utf8(item@);
    let ghost found = listed(all, outer, inner, false, first_only);
    assert(all.skip(0) =~= all);
    assert(tag_views(tags@) + found =~= found);
    let mut i: usize = 0;
    while i < events.len()
        invariant
            i <= events@.len(),
            all == event_views(events@),
            outer == utf8(section@),
            inner == utf8(item@),
            found == listed(all, outer, inner, false, first_only),
            tag_views(tags@) + listed(all.skip(i as int), outer, inner, inside, first_only) == found,
            tags@.len() <= i,
        decreases events@.len() - i,
    {
        let ghost before = tag_views(tags@);
        let ghost rest = listed(all.skip(i + 1), outer, inner, inside, first_only);
        assert(all.skip(i as int).drop_first() =~= all.skip(i + 1));
        assert(all.skip(i as int)[0] == events@[i as int]@);
        match &events[i] {
            XmlEvent::Open(tag) => {
                if !tag.closed && same_bytes(tag.name.as_slice(), section.as_bytes()) {
                    inside = true;
                } else if inside && same_bytes(tag.name.as_slice(), item.as_bytes()) {
                    tags.push(tag);
                    assert(tag_views(tags@) =~= before + seq![tag@]);
                    assert(tag_views(tags@) + rest =~= before + (seq![tag@] + rest));
                }
            },
            XmlEvent::End(name) => {
                if same_bytes(name.as_slice(), section.as_bytes()) {
                    if first_only {
                        assert(before =~= found);
                        return tags;
                    }
                    inside = false;
                }
            },
            _ => {},
        }
        i += 1;
    }
    assert(all.skip(i as int) =~= Seq::<EventView>::empty());
    assert(tag_views(tags@) =~= found);
    tags
}

/// The view of a tag that may be missing.
spec fn open_view(open: Option<&Tag>) -> Option<TagView> {
    match open {
        Some(tag) => Some(tag@),
        None => None,
    }
}

/// The tags of the cells among `events` that hold a formula or a text.
pub fn filled_cells_among<'a>(events: &'a [XmlEvent]) -> (tags: Vec<&'a Tag>)
    ensures
        tag_views(tags@) == filled_cells(event_views(events@), None),
{
    let mut tags: Vec<&'a Tag> = Vec::new();
    let mut open: Option<&'a Tag> = None;
    let ghost all = event_views(events@);
    let ghost found = filled_cells(all, None);
    assert(all.skip(0) =~= all);
    assert(tag_views(tags@) + found =~= found);
    let mut i: usize = 0;
    while i < events.len()
        invariant
            i <= events@.len(),
            all == event_views(events@),
            found == filled_cells(all, None),
            tag_views(tags@) + filled_cells(all.skip(i as int), open_view(open)) == found,
        decreases events@.len() - i,
    {
        let ghost before = tag_views(tags@);
        let ghost rest = filled_cells(all.skip(i + 1), None);
        assert(all.skip(i as int).drop_first() =~= all.skip(i + 1));
        assert(all.skip(i as int)[0] == events@[i as int]@);
        let mut fills: bool = false;
        match &events[i] {
            XmlEvent::Open(tag) => {
                if same_bytes(tag.name.as_slice(), "c".as_bytes()) {
                    open = if tag.closed {
                        None
                    } else {
                        Some(tag)
                    };
                } else {
                    fills = same_bytes(tag.name.as_slice(), "f".as_bytes());
                }
            },
            XmlEvent::End(name) => {
                if same_bytes(name.as_slice(), "c".as_bytes()) {
                    open = None;
                }
            },
            XmlEvent::Text => {
                fills = true;
            },
            XmlEvent::Other => {},
        }
        if fills {
            if let Some(tag) = open {
                tags.push(tag);
                assert(tag_views(tags@) =~= before + seq![tag@]);
                assert(tag_views(tags@) + rest =~= before + (seq![tag@] + rest));
            } else {
                assert(filled_here(None) + rest =~= rest);
            }
            open = None;
        }
        i += 1;
    }
    assert(all.skip(i as int) =~= Seq::<EventView>::empty());
    assert(tag_views(tags@) =~= found);
    tags
}

/// The value of the first attribute called `key`.
pub fn attribute_value<'a>(tag: &'a Tag, key: &str) -> (value: Option<&'a Vec<u8>>)
    ensures
        match value {
            Some(v) => attribute(tag@, utf8(key@)) == Some(v@),
            None => attribute(tag@, utf8(key@)) is None,
        },
{
    let mut i: usize = 0;
    while i < tag.attributes.len()
        invariant
            i <= tag.attributes@.len(),
            attribute(tag@, utf8(key@)) == attribute_from(tag@.attributes, utf8(key@), i as int),
        decreases tag.attributes@.len() - i,
    {
        assert(tag@.attributes[i as int] == attribute_view(tag.attributes@[i as int]));
        if let Some(a) = &tag.attributes[i] {
            if same_bytes(a.key.as_slice(), key.as_bytes()) {
                return Some(&a.value);
            }
        }
        i += 1;
    }
    None
}

/// The text of the first attribute called `key`.
pub open spec fn attribute_text(tag: TagView, key: Seq<char>) -> Option<Seq<char>> {
    match attribute(tag, utf8(key)) {
        Some(value) => Some(lossy(value)),
        None => None,
    }
}

/// The text of the first attribute called `key`.
pub fn text_of_attribute(tag: &Tag, key: &str) -> (text: Option<String>)
    ensures
        match text {
            Some(t) => attribute_text(tag@, key@) == Some(t@),
            None => attribute_text(tag@, key@) is None,
        },
{
    match attribute_value(tag, key) {
        Some(value) => Some(lossy_string(value.as_slice())),
        None => None,
    }
}

// ---- writing elements ---------------------------------------------------------------------

/// A character of text, with those that mean something in XML written as entities.
pub open spec fn escaped_char(c: char) -> Seq<char> {
    if c == '<' {
        "&lt;"@
    } else if c == '>' {
        "&gt;"@
    } else if c == '&' {
        "&amp;"@
    } else if c == '\'' {
        "&apos;"@
    } else if c == '"' {
        "&quot;"@
    } else {
        seq![c]
    }
}

/// Text, with the characters that mean something in XML written as entities.
pub open spec fn escaped(text: Seq<char>) -> Seq<char>
    decreases text.len(),
{
    if text.len() == 0 {
        Seq::empty()
    } else {
        escaped(text.drop_last()) + escaped_char(text.last())
    }
}

/// The attributes of a tag as they are written: each behind a space, with its value escaped and
/// in double quotes.
pub open spec fn written_attributes(attributes: Seq<(Seq<char>, Seq<char>)>) -> Seq<char>
    decreases attributes.len(),
{
    if attributes.len() == 0 {
        Seq::empty()
    } else {
        let (key, value) = attributes.last();
        written_attributes(attributes.drop_last()) + " "@ + key + "=\""@ + escaped(value) + "\""@
    }
}

/// The views of the attributes of a tag.
pub open spec fn pair_views(pairs: Seq<(&str, &str)>) -> Seq<(Seq<char>, Seq<char>)> {
    Seq::new(pairs.len(), |i: int| (pairs[i].0@, pairs[i].1@))
}

/// An element with attributes around `inner`, as it is written.
pub open spec fn written_element(
    name: Seq<char>,
    attributes: Seq<(Seq<char>, Seq<char>)>,
    inner: Seq<u8>,
) -> Seq<u8> {
    utf8("<"@ + name + written_attributes(attributes) + ">"@) + inner + utf8("</"@ + name + ">"@)
}

/// Calls `ElementWriter::write_text_content`, on an element without attributes, with a
/// `BytesText::new`: the opening tag, the escaped text and the closing tag.
#[verifier::external_body]
pub(crate) fn text_element(name: &str, text: &str) -> (xml: Vec<u8>)
    ensures
        xml@ == written_element(name@, Seq::empty(), utf8(escaped(text@))),
{
    let mut writer = quick_xml::Writer::new(Vec::new());
    let text = quick_xml::events::BytesText::new(text);
    let _ = writer.create_element(name).write_text_content(text);
    writer.into_inner()
}

/// Calls `ElementWriter::with_attributes` and `ElementWriter::write_inner_content`: the opening
/// tag with its attributes, whose values are escaped, then `inner` as it is, then the closing tag.
#[verifier::external_body]
pub(crate) fn outer_element(name: &str, attributes: &[(&str, &str)], inner: &[u8]) -> (xml: Vec<u8>)
    ensures
        xml@ == written_element(name@, pair_views(attributes@), inner@),
{
    let mut writer = quick_xml::Writer::new(Vec::new());
    let element = writer.create_element(name).with_attributes(attributes.iter().copied());
    let _ = element.write_inner_content(|w| Ok(push_bytes(w.get_mut(), inner)));
    writer.into_inner()
}

} // verus!
