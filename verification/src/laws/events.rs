//! What is read from the events of a document.

use vstd::prelude::*;
use crate::error::ErrorView;
use crate::styles::{number_attribute, text_attribute};
use crate::text::{lemma_utf8_ascii, lossy, text_of, u32_of, utf8};
use crate::xml::{
    attribute, attribute_from, attribute_text, cell_xfs, elements, filled_cells, filled_here,
    listed, AttributeView, EventView, TagView,
};

verus! {

// ---- attributes ---------------------------------------------------------------------------

/// No attribute of a list is called `key`.
pub open spec fn lacks(attributes: Seq<Option<AttributeView>>, key: Seq<u8>) -> bool {
    forall|i: int|
        0 <= i < attributes.len() ==> ((#[trigger] attributes[i]) matches Some(a) ==> a.key != key)
}

/// An attribute is read by its name, whatever stands around it: of several with one name the first
/// counts, and where there is none, none is read.
pub proof fn law_attribute(
    tag: TagView,
    key: Seq<char>,
    value: Seq<u8>,
    a: Seq<Option<AttributeView>>,
    b: Seq<Option<AttributeView>>,
)
    ensures
        lacks(a, utf8(key)) && tag.attributes == a.push(
            Some(AttributeView { key: utf8(key), value }),
        ) + b ==> attribute(tag, utf8(key)) == Some(value) && attribute_text(tag, key) == Some(
            lossy(value),
        ),
        lacks(tag.attributes, utf8(key)) ==> attribute(tag, utf8(key)) is None && attribute_text(
            tag,
            key,
        ) is None,
{
    if lacks(a, utf8(key)) && tag.attributes == a.push(
        Some(AttributeView { key: utf8(key), value }),
    ) + b {
        let n = a.len() as int;
        assert forall|i: int| 0 <= i < n implies ((#[trigger] tag.attributes[i]) matches Some(x)
            ==> x.key != utf8(key)) by {
            assert(tag.attributes[i] == a[i]);
        }
        assert(tag.attributes[n] == Some(AttributeView { key: utf8(key), value }));
        lemma_attribute_from(tag.attributes, utf8(key), 0, n);
    }
    if lacks(tag.attributes, utf8(key)) {
        lemma_attribute_from(tag.attributes, utf8(key), 0, tag.attributes.len() as int);
    }
}

/// The search for an attribute passes over those with other names.
proof fn lemma_attribute_from(
    attributes: Seq<Option<AttributeView>>,
    key: Seq<u8>,
    i: int,
    n: int,
)
    requires
        0 <= i <= n <= attributes.len(),
        forall|k: int|
            0 <= k < n ==> ((#[trigger] attributes[k]) matches Some(a) ==> a.key != key),
    ensures
        attribute_from(attributes, key, i) == attribute_from(attributes, key, n),
    decreases n - i,
{
    if i < n {
        lemma_attribute_from(attributes, key, i + 1, n);
    }
}

/// A text that was encoded is read as it was.
pub proof fn law_text_read_back(text: Seq<char>)
    ensures
        lossy(utf8(text)) == text,
        text_of(utf8(text)) == Some(text),
{
    vstd::utf8::encode_utf8_valid_utf8(text);
    vstd::utf8::encode_utf8_decode_utf8(text);
}

/// Of several attributes with one name the last counts where a style or a number format is read: its
/// text, and its number, which every one of them has to have.
pub proof fn law_last_attribute(
    key: Seq<u8>,
    value: Seq<u8>,
    a: Seq<Option<AttributeView>>,
    b: Seq<Option<AttributeView>>,
)
    requires
        lacks(b, key),
    ensures
        ({
            let all = a.push(Some(AttributeView { key, value })) + b;
            &&& text_attribute(all, key) == Some(lossy(value))
            &&& u32_of(lossy(value)) is None || number_attribute(a, key) is Err ==> number_attribute(
                all,
                key,
            ) == Err::<Option<u32>, ErrorView>(ErrorView::Parse)
            &&& number_attribute(a, key) is Ok && u32_of(lossy(value)) is Some ==> number_attribute(
                all,
                key,
            ) == Ok::<Option<u32>, ErrorView>(u32_of(lossy(value)))
        }),
        text_attribute(b, key) is None,
        number_attribute(b, key) == Ok::<Option<u32>, ErrorView>(None),
    decreases b.len(),
{
    let all = a.push(Some(AttributeView { key, value })) + b;
    if b.len() == 0 {
        assert(all =~= a.push(Some(AttributeView { key, value })));
        assert(all.drop_last() =~= a);
        lemma_only_parse(a, key);
    } else {
        let front = b.drop_last();
        assert(lacks(front, key)) by {
            assert forall|i: int| 0 <= i < front.len() implies ((#[trigger] front[i]) matches Some(x)
                ==> x.key != key) by {
                assert(front[i] == b[i]);
            }
        }
        law_last_attribute(key, value, a, front);
        assert(all.drop_last() =~= a.push(Some(AttributeView { key, value })) + front);
        assert(all.last() == b[b.len() - 1]);
        assert(b.last() == b[b.len() - 1]);
    }
}

/// A number that cannot be read is refused in one way.
proof fn lemma_only_parse(a: Seq<Option<AttributeView>>, key: Seq<u8>)
    ensures
        number_attribute(a, key) matches Err(e) ==> e == ErrorView::Parse,
    decreases a.len(),
{
    if a.len() > 0 {
        lemma_only_parse(a.drop_last(), key);
    }
}

// ---- elements -----------------------------------------------------------------------------

/// The elements of a name are all tags that open one, closed or not, in their order.
pub proof fn law_elements(a: Seq<EventView>, b: Seq<EventView>, event: EventView, name: Seq<u8>)
    ensures
        elements(a + b, name) == elements(a, name) + elements(b, name),
        elements(Seq::empty(), name) == Seq::<TagView>::empty(),
        elements(seq![event], name) == (match event {
            EventView::Open(tag) => if tag.name == name {
                seq![tag]
            } else {
                Seq::empty()
            },
            _ => Seq::empty(),
        }),
    decreases a.len(),
{
    reveal_with_fuel(elements, 2);
    let one = seq![event];
    assert(one.drop_first() =~= Seq::<EventView>::empty());
    assert(elements(one, name) =~= (match event {
        EventView::Open(tag) => if tag.name == name {
            seq![tag]
        } else {
            Seq::empty()
        },
        _ => Seq::empty(),
    }));
    if a.len() == 0 {
        assert(a + b =~= b);
        assert(elements(a, name) + elements(b, name) =~= elements(b, name));
    } else {
        law_elements(a.drop_first(), b, event, name);
        assert((a + b).drop_first() =~= a.drop_first() + b);
        assert((a + b)[0] == a[0]);
        assert(elements(a + b, name) =~= elements(a, name) + elements(b, name));
    }
}

/// The event opens or ends a section called `section`.
pub open spec fn bounds(event: EventView, section: Seq<u8>) -> bool {
    match event {
        EventView::Open(tag) => !tag.closed && tag.name == section,
        EventView::End(name) => name == section,
        _ => false,
    }
}

/// No event opens or ends a section called `section`.
pub open spec fn free_of(events: Seq<EventView>, section: Seq<u8>) -> bool {
    forall|i: int| 0 <= i < events.len() ==> !bounds(#[trigger] events[i], section)
}

/// Outside of a section nothing is listed.
proof fn lemma_outside(
    front: Seq<EventView>,
    rest: Seq<EventView>,
    section: Seq<u8>,
    item: Seq<u8>,
    first_only: bool,
)
    requires
        free_of(front, section),
    ensures
        listed(front + rest, section, item, false, first_only) == listed(
            rest,
            section,
            item,
            false,
            first_only,
        ),
    decreases front.len(),
{
    if front.len() == 0 {
        assert(front + rest =~= rest);
    } else {
        let next = front.drop_first();
        assert forall|i: int| 0 <= i < next.len() implies !bounds(#[trigger] next[i], section) by {
            assert(next[i] == front[i + 1]);
        }
        lemma_outside(next, rest, section, item, first_only);
        assert((front + rest).drop_first() =~= next + rest);
        assert((front + rest)[0] == front[0]);
        assert(!bounds(front[0], section));
    }
}

/// Within a section every item is listed.
proof fn lemma_inside(
    inner: Seq<EventView>,
    rest: Seq<EventView>,
    section: Seq<u8>,
    item: Seq<u8>,
    first_only: bool,
)
    requires
        free_of(inner, section),
    ensures
        listed(inner + rest, section, item, true, first_only) == elements(inner, item) + listed(
            rest,
            section,
            item,
            true,
            first_only,
        ),
    decreases inner.len(),
{
    if inner.len() == 0 {
        assert(inner + rest =~= rest);
        let all = listed(rest, section, item, true, first_only);
        assert(elements(inner, item) + all =~= all);
    } else {
        let next = inner.drop_first();
        assert forall|i: int| 0 <= i < next.len() implies !bounds(#[trigger] next[i], section) by {
            assert(next[i] == inner[i + 1]);
        }
        lemma_inside(next, rest, section, item, first_only);
        assert((inner + rest).drop_first() =~= next + rest);
        assert((inner + rest)[0] == inner[0]);
        assert(!bounds(inner[0], section));
        assert(listed(inner + rest, section, item, true, first_only) =~= elements(inner, item)
            + listed(rest, section, item, true, first_only));
    }
}

/// The items of a section are those between the tag that opens it and the one that ends it. Where the
/// first section alone counts, no others are listed; otherwise those of the sections behind it follow.
pub proof fn law_section(
    front: Seq<EventView>,
    open: TagView,
    inner: Seq<EventView>,
    rest: Seq<EventView>,
    section: Seq<u8>,
    item: Seq<u8>,
)
    requires
        free_of(front, section),
        free_of(inner, section),
        !open.closed,
        open.name == section,
    ensures
        ({
            let whole = front + seq![EventView::Open(open)] + inner + seq![EventView::End(section)]
                + rest;
            &&& listed(whole, section, item, false, true) == elements(inner, item)
            &&& listed(whole, section, item, false, false) == elements(inner, item) + listed(
                rest,
                section,
                item,
                false,
                false,
            )
        }),
        listed(front + inner, section, item, false, true) == Seq::<TagView>::empty(),
        listed(front + inner, section, item, false, false) == Seq::<TagView>::empty(),
{
    let end = seq![EventView::End(section)] + rest;
    let whole = front + seq![EventView::Open(open)] + inner + seq![EventView::End(section)] + rest;
    let opened = seq![EventView::Open(open)] + (inner + end);
    assert(whole =~= front + opened);
    assert(opened.drop_first() =~= inner + end);
    assert(opened[0] == EventView::Open(open));
    assert(end.drop_first() =~= rest);
    assert(end[0] == EventView::End(section));
    lemma_outside(front, opened, section, item, true);
    lemma_outside(front, opened, section, item, false);
    lemma_inside(inner, end, section, item, true);
    lemma_inside(inner, end, section, item, false);
    assert(elements(inner, item) + Seq::<TagView>::empty() =~= elements(inner, item));
    let none = Seq::<EventView>::empty();
    lemma_outside(front, inner, section, item, true);
    lemma_outside(front, inner, section, item, false);
    lemma_outside(inner, none, section, item, true);
    lemma_outside(inner, none, section, item, false);
    assert(inner + none =~= inner);
}

/// The styles of a style sheet are the `xf` tags between `<cellXfs>` and `</cellXfs>`: those of the first
/// list alone, or those of every one.
pub proof fn law_cell_xfs(
    front: Seq<EventView>,
    open: TagView,
    inner: Seq<EventView>,
    rest: Seq<EventView>,
)
    requires
        free_of(front, utf8("cellXfs"@)),
        free_of(inner, utf8("cellXfs"@)),
        !open.closed,
        open.name == utf8("cellXfs"@),
    ensures
        ({
            let whole = front + seq![EventView::Open(open)] + inner + seq![
                EventView::End(utf8("cellXfs"@)),
            ] + rest;
            &&& cell_xfs(whole, true) == elements(inner, utf8("xf"@))
            &&& cell_xfs(whole, false) == elements(inner, utf8("xf"@)) + cell_xfs(rest, false)
        }),
        cell_xfs(front + inner, true) == Seq::<TagView>::empty(),
        cell_xfs(front + inner, false) == Seq::<TagView>::empty(),
{
    law_section(front, open, inner, rest, utf8("cellXfs"@), utf8("xf"@));
}

// ---- cells that hold something ------------------------------------------------------------

/// The event opens a cell, and whatever it may hold.
pub open spec fn opens_cell(event: EventView) -> bool {
    event matches EventView::Open(tag) && tag.name == utf8("c"@)
}

/// The event ends a cell.
pub open spec fn ends_cell(event: EventView) -> bool {
    event == EventView::End(utf8("c"@))
}

/// The event is a text or opens a formula.
pub open spec fn fills_cell(event: EventView) -> bool {
    event == EventView::Text || (event matches EventView::Open(tag) && tag.name == utf8("f"@))
}

/// The names of a cell and of a formula differ.
proof fn lemma_names()
    ensures
        utf8("c"@) != utf8("f"@),
{
    reveal_strlit("c");
    reveal_strlit("f");
    lemma_utf8_ascii("c"@);
    lemma_utf8_ascii("f"@);
    assert(utf8("c"@)[0] == "c"@[0] as u8);
    assert(utf8("f"@)[0] == "f"@[0] as u8);
}

/// Events that neither open nor end a cell nor fill one change nothing.
proof fn lemma_quiet(quiet: Seq<EventView>, rest: Seq<EventView>, open: Option<TagView>)
    requires
        forall|i: int|
            0 <= i < quiet.len() ==> !opens_cell(#[trigger] quiet[i]) && !ends_cell(quiet[i])
                && !fills_cell(quiet[i]),
    ensures
        filled_cells(quiet + rest, open) == filled_cells(rest, open),
    decreases quiet.len(),
{
    if quiet.len() == 0 {
        assert(quiet + rest =~= rest);
    } else {
        let next = quiet.drop_first();
        assert forall|i: int| 0 <= i < next.len() implies !opens_cell(#[trigger] next[i])
            && !ends_cell(next[i]) && !fills_cell(next[i]) by {
            assert(next[i] == quiet[i + 1]);
        }
        lemma_quiet(next, rest, open);
        assert((quiet + rest).drop_first() =~= next + rest);
        assert((quiet + rest)[0] == quiet[0]);
        assert(!opens_cell(quiet[0]) && !ends_cell(quiet[0]) && !fills_cell(quiet[0]));
    }
}

/// Events outside of a cell list nothing.
proof fn lemma_no_cell(events: Seq<EventView>, rest: Seq<EventView>)
    requires
        forall|i: int| 0 <= i < events.len() ==> !opens_cell(#[trigger] events[i]),
    ensures
        filled_cells(events + rest, None) == filled_cells(rest, None),
    decreases events.len(),
{
    if events.len() == 0 {
        assert(events + rest =~= rest);
    } else {
        let next = events.drop_first();
        assert forall|i: int| 0 <= i < next.len() implies !opens_cell(#[trigger] next[i]) by {
            assert(next[i] == events[i + 1]);
        }
        lemma_no_cell(next, rest);
        assert((events + rest).drop_first() =~= next + rest);
        assert((events + rest)[0] == events[0]);
        assert(!opens_cell(events[0]));
        let all = filled_cells(rest, None);
        assert(filled_here(None) + all =~= all);
    }
}

/// What stands in front of a cell is listed as it would be without the cell.
proof fn lemma_cell_behind(
    front: Seq<EventView>,
    cell: TagView,
    rest: Seq<EventView>,
    open: Option<TagView>,
)
    requires
        cell.name == utf8("c"@),
    ensures
        filled_cells(front + (seq![EventView::Open(cell)] + rest), open) == filled_cells(front, open)
            + filled_cells(
            rest,
            if cell.closed {
                None
            } else {
                Some(cell)
            },
        ),
    decreases front.len(),
{
    let opened = seq![EventView::Open(cell)] + rest;
    let left = if cell.closed {
        None
    } else {
        Some(cell)
    };
    if front.len() == 0 {
        assert(front + opened =~= opened);
        assert(opened.drop_first() =~= rest);
        let all = filled_cells(rest, left);
        assert(filled_cells(front, open) + all =~= all);
    } else {
        let next = front.drop_first();
        assert((front + opened).drop_first() =~= next + opened);
        assert((front + opened)[0] == front[0]);
        let all = filled_cells(rest, left);
        let here = filled_here(open);
        match front[0] {
            EventView::Open(tag) => {
                let inner = if tag.closed {
                    None
                } else {
                    Some(tag)
                };
                lemma_cell_behind(next, cell, rest, inner);
                lemma_cell_behind(next, cell, rest, None);
                lemma_cell_behind(next, cell, rest, open);
            },
            _ => {
                lemma_cell_behind(next, cell, rest, None);
                lemma_cell_behind(next, cell, rest, open);
            },
        }
        assert(here + (filled_cells(next, None) + all) =~= here + filled_cells(next, None) + all);
    }
}

/// A cell that opens and has a text or a formula before its end is listed, whatever its tag holds, and
/// once; the cells in front of it and behind it are listed as they would be without it.
pub proof fn law_filled_cell(
    front: Seq<EventView>,
    cell: TagView,
    between: Seq<EventView>,
    filling: EventView,
    rest: Seq<EventView>,
)
    requires
        cell.name == utf8("c"@),
        !cell.closed,
        forall|i: int|
            0 <= i < between.len() ==> !opens_cell(#[trigger] between[i]) && !ends_cell(between[i])
                && !fills_cell(between[i]),
        fills_cell(filling),
    ensures
        filled_cells(
            front + (seq![EventView::Open(cell)] + (between + (seq![filling] + rest))),
            None,
        ) == filled_cells(front, None) + seq![cell] + filled_cells(rest, None),
{
    let behind = between + (seq![filling] + rest);
    lemma_names();
    lemma_cell_behind(front, cell, behind, None);
    lemma_quiet(between, seq![filling] + rest, Some(cell));
    assert((seq![filling] + rest).drop_first() =~= rest);
    assert((seq![filling] + rest)[0] == filling);
    assert(filled_cells(front, None) + (seq![cell] + filled_cells(rest, None)) =~= filled_cells(
        front,
        None,
    ) + seq![cell] + filled_cells(rest, None));
}

/// A cell that ends before a text or a formula comes is not listed, and neither is one that closes
/// itself, nor anything where no cell opens.
pub proof fn law_empty_cell(
    front: Seq<EventView>,
    cell: TagView,
    between: Seq<EventView>,
    rest: Seq<EventView>,
)
    requires
        cell.name == utf8("c"@),
        forall|i: int|
            0 <= i < between.len() ==> !opens_cell(#[trigger] between[i]) && !ends_cell(between[i])
                && !fills_cell(between[i]),
    ensures
        !cell.closed ==> filled_cells(
            front + (seq![EventView::Open(cell)] + (between + (seq![EventView::End(utf8("c"@))]
                + rest))),
            None,
        ) == filled_cells(front, None) + filled_cells(rest, None),
        cell.closed ==> filled_cells(front + (seq![EventView::Open(cell)] + rest), None)
            == filled_cells(front, None) + filled_cells(rest, None),
        (forall|i: int| 0 <= i < front.len() ==> !opens_cell(#[trigger] front[i])) ==> filled_cells(
            front,
            None,
        ) == Seq::<TagView>::empty() && filled_cells(front + rest, None) == filled_cells(rest, None),
{
    let end = seq![EventView::End(utf8("c"@))] + rest;
    lemma_cell_behind(front, cell, between + end, None);
    lemma_cell_behind(front, cell, rest, None);
    if !cell.closed {
        lemma_quiet(between, end, Some(cell));
        assert(end.drop_first() =~= rest);
        assert(end[0] == EventView::End(utf8("c"@)));
    }
    if forall|i: int| 0 <= i < front.len() ==> !opens_cell(#[trigger] front[i]) {
        lemma_no_cell(front, rest);
        lemma_no_cell(front, Seq::empty());
        assert(front + Seq::<EventView>::empty() =~= front);
    }
}

} // verus!
