//! What is read of a tag, and which tag is meant.

use vstd::prelude::*;
use crate::bytes::{
    find, find_from, insert, lemma_find_from, lemma_find_from_is, lemma_rfind, occurs_at, replace,
    rfind,
};
use crate::error::ErrorView;
use crate::laws::cells::lemma_number_of;
use crate::laws::pieces::lemma_byte_at;
use crate::laws::ranges::is_tag_text;
use crate::paint::cell_painted;
use crate::sheet::{
    cell_set, coord_row, later_cell, lemma_quote, row_opened, row_place, row_slot, row_start,
    tag_column, tag_number, SheetOutcome, SheetView,
};
use crate::tags::{
    element_stop, is_closed, is_ended, lemma_bracket, refers_to, style_in_tag, tag_at, tag_of,
    tag_stop, tag_with_attribute, value_in_tag,
};
use crate::text::{
    decimal, lemma_utf8_concat, lemma_utf8_injective, text_of, u32_of, u32_of_bytes, utf8,
};

verus! {

// ---- one tag ------------------------------------------------------------------------------

/// A tag reaches up to its first `>`, wherever it stands in a document.
pub proof fn law_tag(a: Seq<u8>, tag: Seq<u8>, b: Seq<u8>)
    requires
        is_tag_text(tag),
    ensures
        tag_stop(a + tag + b, a.len() as int) == a.len() + tag.len(),
        tag_at(a + tag + b, a.len() as int) == tag,
        is_ended(tag),
        is_closed(tag) <==> tag.len() >= 2 && tag[tag.len() - 2] == 47,
{
    let xml = a + tag + b;
    let bracket = utf8(">"@);
    let n = a.len() as int;
    let at = n + tag.len() - 1;
    lemma_bracket();
    assert forall|p: int| n <= p < at implies !#[trigger] occurs_at(xml, bracket, p) by {
        if occurs_at(xml, bracket, p) {
            lemma_byte_at(xml, bracket, p, 0);
            assert(xml[p] == tag[p - n]);
        }
    }
    assert(xml.subrange(at, at + 1) =~= bracket);
    lemma_find_from_is(xml, bracket, n, at);
    assert(xml.subrange(n, n + tag.len()) =~= tag);
}

/// A tag without a `>` reaches up to the end of the document and does not end.
pub proof fn law_open_tag(a: Seq<u8>, tag: Seq<u8>)
    requires
        forall|i: int| 0 <= i < tag.len() ==> #[trigger] tag[i] != 62,
    ensures
        tag_at(a + tag, a.len() as int) == tag,
        !is_ended(tag),
{
    let xml = a + tag;
    let bracket = utf8(">"@);
    let n = a.len() as int;
    lemma_bracket();
    lemma_find_from(xml, bracket, n);
    if let Some(p) = find_from(xml, bracket, n) {
        lemma_byte_at(xml, bracket, p, 0);
        assert(xml[p] == tag[p - n]);
    }
    assert(xml.subrange(n, xml.len() as int) =~= tag);
}

/// The value of an attribute is what stands between its first name and the next quote, wherever in the
/// tag that is.
pub proof fn law_value_in_tag(a: Seq<u8>, head: Seq<char>, value: Seq<u8>, b: Seq<u8>)
    requires
        find(a + utf8(head) + value + utf8("\""@) + b, utf8(head)) == Some(a.len() as int),
        forall|i: int| 0 <= i < value.len() ==> #[trigger] value[i] != 34,
    ensures
        value_in_tag(a + utf8(head) + value + utf8("\""@) + b, head) == Some(value),
{
    let h = utf8(head);
    let quote = utf8("\""@);
    let tag = a + h + value + quote + b;
    let start = (a.len() + h.len()) as int;
    let end = start + value.len();
    lemma_quote();
    assert forall|p: int| start <= p < end implies !#[trigger] occurs_at(tag, quote, p) by {
        if occurs_at(tag, quote, p) {
            lemma_byte_at(tag, quote, p, 0);
            assert(tag[p] == value[p - start]);
        }
    }
    assert(tag.subrange(end, end + 1) =~= quote);
    lemma_find_from_is(tag, quote, start, end);
    assert(tag.subrange(start, end) =~= value);
}

/// A tag without the name of an attribute has no value of it, and no style.
pub proof fn law_no_value_in_tag(tag: Seq<u8>, head: Seq<char>)
    requires
        find(tag, utf8(head)) is None,
    ensures
        value_in_tag(tag, head) is None,
        style_in_tag(tag, head) == Ok::<Option<u32>, ErrorView>(None),
{
}

/// A tag refers to a name where that is the value of its attribute `r`, and a row has that number.
pub proof fn law_refers_to(a: Seq<u8>, name: Seq<char>, number: u32, b: Seq<u8>)
    requires
        find(a + utf8(" r=\""@) + utf8(name) + utf8("\""@) + b, utf8(" r=\""@)) == Some(
            a.len() as int,
        ),
        forall|i: int| 0 <= i < utf8(name).len() ==> #[trigger] utf8(name)[i] != 34,
    ensures
        ({
            let tag = a + utf8(" r=\""@) + utf8(name) + utf8("\""@) + b;
            &&& refers_to(tag, name)
            &&& forall|other: Seq<char>| #[trigger] refers_to(tag, other) ==> other == name
            &&& name == decimal(number as nat) ==> tag_number(tag) == Some(number)
        }),
{
    let tag = a + utf8(" r=\""@) + utf8(name) + utf8("\""@) + b;
    law_value_in_tag(a, " r=\""@, utf8(name), b);
    assert forall|other: Seq<char>| #[trigger] refers_to(tag, other) implies other == name by {
        lemma_utf8_injective(other, name);
    }
    if name == decimal(number as nat) {
        lemma_number_of(tag, number);
    }
}

/// The style of a tag is the number in its attribute, and zero where that is no number.
pub proof fn law_style_in_tag(a: Seq<u8>, head: Seq<char>, text: Seq<char>, b: Seq<u8>)
    requires
        find(a + utf8(head) + utf8(text) + utf8("\""@) + b, utf8(head)) == Some(a.len() as int),
        forall|i: int| 0 <= i < utf8(text).len() ==> #[trigger] utf8(text)[i] != 34,
    ensures
        style_in_tag(a + utf8(head) + utf8(text) + utf8("\""@) + b, head) == Ok::<
            Option<u32>,
            ErrorView,
        >(
            Some(
                match u32_of(text) {
                    Some(style) => style,
                    None => 0,
                },
            ),
        ),
{
    law_value_in_tag(a, head, utf8(text), b);
    law_text_of(text);
}

/// Text is read back from its bytes, and so is a number.
pub proof fn law_text_of(text: Seq<char>)
    ensures
        text_of(utf8(text)) == Some(text),
        u32_of_bytes(utf8(text)) == u32_of(text),
{
    vstd::utf8::encode_utf8_valid_utf8(text);
    vstd::utf8::encode_utf8_decode_utf8(text);
}

/// Bytes that are not UTF-8 are no text and no number.
pub proof fn law_no_text(bytes: Seq<u8>)
    ensures
        !vstd::utf8::valid_utf8(bytes) ==> text_of(bytes) is None && u32_of_bytes(bytes) is None,
{
}

/// A tag that gets an attribute: a value that is there is replaced, and nothing else changes.
pub proof fn law_attribute_replaced(
    a: Seq<u8>,
    head: Seq<char>,
    was: Seq<u8>,
    b: Seq<u8>,
    value: Seq<char>,
)
    requires
        find(a + utf8(head) + was + utf8("\""@) + b, utf8(head)) == Some(a.len() as int),
        forall|i: int| 0 <= i < was.len() ==> #[trigger] was[i] != 34,
    ensures
        tag_with_attribute(a + utf8(head) + was + utf8("\""@) + b, head, value) == Some(
            a + utf8(head) + utf8(value) + utf8("\""@) + b,
        ),
{
    let h = utf8(head);
    let quote = utf8("\""@);
    let tag = a + h + was + quote + b;
    let start = (a.len() + h.len()) as int;
    let end = start + was.len();
    lemma_quote();
    assert forall|p: int| start <= p < end implies !#[trigger] occurs_at(tag, quote, p) by {
        if occurs_at(tag, quote, p) {
            lemma_byte_at(tag, quote, p, 0);
            assert(tag[p] == was[p - start]);
        }
    }
    assert(tag.subrange(end, end + 1) =~= quote);
    lemma_find_from_is(tag, quote, start, end);
    assert(replace(tag, start, end, utf8(value)) =~= a + h + utf8(value) + quote + b);
}

/// A tag that gets an attribute that it has not: the attribute goes in front of the end of the tag, also
/// where the tag closes itself.
pub proof fn law_attribute_inserted(a: Seq<u8>, head: Seq<char>, value: Seq<char>)
    requires
        a.len() > 0,
        a.last() != 47,
    ensures
        find(a + seq![62u8], utf8(head)) is None ==> tag_with_attribute(
            a + seq![62u8],
            head,
            value,
        ) == Some(a + utf8(head) + utf8(value) + utf8("\""@) + seq![62u8]),
        find(a + seq![47u8, 62u8], utf8(head)) is None ==> tag_with_attribute(
            a + seq![47u8, 62u8],
            head,
            value,
        ) == Some(a + utf8(head) + utf8(value) + utf8("\""@) + seq![47u8, 62u8]),
{
    let new = utf8(head + value + "\""@);
    lemma_utf8_concat(head, value);
    lemma_utf8_concat(head + value, "\""@);
    let plain = a + seq![62u8];
    let closed = a + seq![47u8, 62u8];
    assert(plain[plain.len() - 2] == a.last());
    assert(closed[closed.len() - 2] == 47);
    assert(insert(plain, plain.len() - 1, new) =~= a + utf8(head) + utf8(value) + utf8("\""@)
        + seq![62u8]);
    assert(insert(closed, closed.len() - 2, new) =~= a + utf8(head) + utf8(value) + utf8("\""@)
        + seq![47u8, 62u8]);
}

// ---- elements -----------------------------------------------------------------------------

/// An element ends with its tag where that closes itself, and else behind the first end that stands
/// behind the tag.
pub proof fn law_element_stop(
    a: Seq<u8>,
    tag: Seq<u8>,
    inner: Seq<u8>,
    close: Seq<char>,
    b: Seq<u8>,
)
    requires
        is_tag_text(tag),
    ensures
        is_closed(tag) ==> element_stop(a + tag + b, a.len() as int, close) == Some(
            (a.len() + tag.len()) as int,
        ),
        !is_closed(tag) && find(inner + utf8(close) + b, utf8(close)) == Some(inner.len() as int)
            ==> element_stop(a + tag + (inner + utf8(close) + b), a.len() as int, close) == Some(
            (a.len() + tag.len() + inner.len() + utf8(close).len()) as int,
        ),
        !is_closed(tag) && find(b, utf8(close)) is None ==> element_stop(
            a + tag + b,
            a.len() as int,
            close,
        ) is None,
{
    let c = utf8(close);
    let rest = inner + c + b;
    law_tag(a, tag, b);
    law_tag(a, tag, rest);
    let front = a + tag;
    let n = front.len() as int;
    if find(rest, c) == Some(inner.len() as int) {
        let xml = front + rest;
        lemma_find_from(rest, c, 0);
        assert forall|p: int| n <= p < n + inner.len() implies !#[trigger] occurs_at(xml, c, p) by {
            if occurs_at(xml, c, p) {
                assert(rest.subrange(p - n, p - n + c.len()) =~= xml.subrange(p, p + c.len()));
                assert(occurs_at(rest, c, p - n));
            }
        }
        assert(xml.subrange(n + inner.len(), n + inner.len() + c.len()) =~= c);
        lemma_find_from_is(xml, c, n, n + inner.len());
    }
    if find(b, c) is None {
        let xml = front + b;
        lemma_find_from(b, c, 0);
        lemma_find_from(xml, c, n);
        if let Some(p) = find_from(xml, c, n) {
            assert(b.subrange(p - n, p - n + c.len()) =~= xml.subrange(p, p + c.len()));
            assert(occurs_at(b, c, p - n));
        }
    }
}

/// The tag that is meant by a name is the first that starts as asked for and refers to the name.
pub proof fn law_tag_of(xml: Seq<u8>, open: Seq<char>, value: Seq<char>, i: int)
    requires
        0 <= i,
    ensures
        match tag_of(xml, open, value, i) {
            Some(at) => {
                &&& i <= at
                &&& occurs_at(xml, utf8(open), at)
                &&& refers_to(tag_at(xml, at), value)
                &&& forall|p: int|
                    i <= p < at && #[trigger] occurs_at(xml, utf8(open), p) ==> !refers_to(
                        tag_at(xml, p),
                        value,
                    )
            },
            None => forall|p: int|
                i <= p && #[trigger] occurs_at(xml, utf8(open), p) ==> !refers_to(
                    tag_at(xml, p),
                    value,
                ),
        },
    decreases xml.len() + 1 - i,
{
    lemma_find_from(xml, utf8(open), i);
    if let Some(at) = find_from(xml, utf8(open), i) {
        if !refers_to(tag_at(xml, at), value) {
            law_tag_of(xml, open, value, at + 1);
        }
    }
}

/// A row goes in front of the first row with a larger number.
pub proof fn law_row_slot(xml: Seq<u8>, number: u32, i: int)
    requires
        0 <= i,
    ensures
        match row_slot(xml, number, i) {
            Some(at) => {
                &&& i <= at
                &&& occurs_at(xml, utf8("<row "@), at)
                &&& tag_number(tag_at(xml, at)) matches Some(other) && other > number
                &&& forall|p: int|
                    i <= p < at && #[trigger] occurs_at(xml, utf8("<row "@), p) ==> !(tag_number(
                        tag_at(xml, p),
                    ) matches Some(other) && other > number)
            },
            None => forall|p: int|
                i <= p && #[trigger] occurs_at(xml, utf8("<row "@), p) ==> !(tag_number(
                    tag_at(xml, p),
                ) matches Some(other) && other > number),
        },
    decreases xml.len() + 1 - i,
{
    lemma_find_from(xml, utf8("<row "@), i);
    if let Some(at) = find_from(xml, utf8("<row "@), i) {
        law_row_slot(xml, number, at + 1);
    }
}

/// A row without one behind it goes to the last end of the data.
pub proof fn law_row_place(xml: Seq<u8>, number: u32)
    ensures
        row_slot(xml, number, 0) is Some ==> row_place(xml, number) == row_slot(xml, number, 0),
        row_slot(xml, number, 0) is None ==> row_place(xml, number) == rfind(
            xml,
            utf8("</sheetData>"@),
        ),
{
}

/// A cell goes in front of the first cell of a later column. Cells without a column are passed over.
pub proof fn law_later_cell(row: Seq<u8>, column: u32, i: int)
    requires
        0 <= i,
    ensures
        later_cell(row, column, i) matches Some(found) ==> match found {
            Some(at) => {
                &&& i <= at
                &&& occurs_at(row, utf8("<c "@), at)
                &&& tag_column(tag_at(row, at)) matches Some(Some(other)) && other > column
                &&& forall|p: int|
                    i <= p < at && #[trigger] occurs_at(row, utf8("<c "@), p) ==> !(tag_column(
                        tag_at(row, p),
                    ) matches Some(Some(other)) && other > column)
            },
            None => forall|p: int|
                i <= p && #[trigger] occurs_at(row, utf8("<c "@), p) ==> !(tag_column(
                    tag_at(row, p),
                ) matches Some(Some(other)) && other > column),
        },
        later_cell(row, column, i) is None ==> exists|p: int|
            i <= p && #[trigger] occurs_at(row, utf8("<c "@), p) && tag_column(tag_at(row, p)) == Some(
                None::<u32>,
            ),
    decreases row.len() + 1 - i,
{
    lemma_find_from(row, utf8("<c "@), i);
    if let Some(at) = find_from(row, utf8("<c "@), i) {
        law_later_cell(row, column, at + 1);
    }
}

// ---- rows ---------------------------------------------------------------------------------

/// A row whose tag closes itself is given an end when cells go into it, and any other stays.
pub proof fn law_row_opened(front: Seq<u8>, row: Seq<u8>)
    ensures
        row_opened(front + seq![47u8, 62u8]) == front + utf8(">"@) + utf8("</row>"@),
        !is_closed(row) ==> row_opened(row) == row,
{
    let whole = front + seq![47u8, 62u8];
    assert(whole.take(whole.len() - 2) =~= front);
    assert(">"@ + "</row>"@ =~= "></row>"@) by {
        reveal_strlit(">");
        reveal_strlit("</row>");
        reveal_strlit("></row>");
    }
    lemma_utf8_concat(">"@, "</row>"@);
    assert(front + utf8("></row>"@) =~= front + utf8(">"@) + utf8("</row>"@));
}

/// A cell without a row is refused, and so is one in a sheet without data, or in a row that does not
/// end. Nothing changes then.
pub proof fn law_cell_refused(
    sheet: SheetView,
    coord: Seq<char>,
    value: Seq<char>,
    style: u32,
    number: u32,
)
    ensures
        coord_row(coord) is None ==> {
            let left = Some(
                SheetOutcome { sheet, result: Err(ErrorView::InvalidCoordinate(coord)) },
            );
            cell_set(sheet, coord, value) == left && cell_painted(sheet, coord, style) == left
        },
        coord_row(coord) == Some(number) && row_start(sheet.xml, number) is None && row_slot(
            sheet.xml,
            number,
            0,
        ) is None && find(sheet.xml, utf8("</sheetData>"@)) is None ==> {
            let left = Some(
                SheetOutcome { sheet, result: Err(ErrorView::XmlTagNotFound("</sheetData>"@)) },
            );
            cell_set(sheet, coord, value) == left && cell_painted(sheet, coord, style) == left
        },
        coord_row(coord) == Some(number) && (row_start(sheet.xml, number) matches Some(start)
            && element_stop(sheet.xml, start, "</row>"@) is None) ==> {
            let left = Some(
                SheetOutcome { sheet, result: Err(ErrorView::XmlTagNotFound("</row>"@)) },
            );
            cell_set(sheet, coord, value) == left && cell_painted(sheet, coord, style) == left
        },
{
    lemma_rfind(sheet.xml, utf8("</sheetData>"@));
    lemma_find_from(sheet.xml, utf8("</sheetData>"@), 0);
}

} // verus!
