//! Counts, clearing, and attributes.

use vstd::prelude::*;
use crate::bytes::{
    find, find_from, insert, lemma_find_from, lemma_find_from_is, occurs_at, replace,
};
use crate::edit::sheet_overwritten;
use crate::laws::cells::lemma_digits;
use crate::laws::pieces::{
    lemma_byte_at, lemma_occurs_before, lemma_occurs_behind, lemma_occurs_within,
};
use crate::laws::shapes::lemma_sheet_ends;
use crate::markup::count_bumped;
use crate::merge::sheet_cleared;
use crate::sheet::{lemma_quote, row_appended, SheetView};
use crate::tags::{tag_with_attribute, value_in_tag};
use crate::text::{decimal, lemma_utf8_ascii, lemma_utf8_concat, u32_of_bytes, utf8};

verus! {

// ---- counts -------------------------------------------------------------------------------

/// The number in the first `attr` behind the first `tag`.
pub open spec fn count_in(xml: Seq<u8>, tag: Seq<char>, attr: Seq<char>) -> Option<u32> {
    match find(xml, utf8(tag)) {
        None => None,
        Some(pos) => match find_from(xml, utf8(attr), pos) {
            None => None,
            Some(a) => match find_from(xml, utf8("\""@), a + utf8(attr).len()) {
                None => None,
                Some(end) => u32_of_bytes(xml.subrange(a + utf8(attr).len(), end)),
            },
        },
    }
}

/// The quote behind digits that took the place of a value is the one that stood behind the value.
proof fn lemma_quote_behind(xml: Seq<u8>, from: int, to: int, n: nat, i: int)
    requires
        0 <= from <= to,
        from <= i <= from + 1,
        occurs_at(xml, utf8("\""@), to),
    ensures
        find_from(replace(xml, from, to, utf8(decimal(n))), utf8("\""@), i) == Some(
            from + utf8(decimal(n)).len(),
        ),
        replace(xml, from, to, utf8(decimal(n))).subrange(
            from,
            from + utf8(decimal(n)).len(),
        ) == utf8(decimal(n)),
{
    let digits = utf8(decimal(n));
    let whole = replace(xml, from, to, digits);
    let quote = utf8("\""@);
    let end = from + digits.len();
    lemma_quote();
    lemma_digits(n);
    lemma_occurs_behind(xml, from, to, digits, quote, end);
    assert forall|p: int| i <= p < end implies !#[trigger] occurs_at(whole, quote, p) by {
        if occurs_at(whole, quote, p) {
            lemma_byte_at(whole, quote, p, 0);
            assert(whole[p] == digits[p - from]);
        }
    }
    lemma_find_from_is(whole, quote, i, end);
    assert(whole.subrange(from, end) =~= digits);
}

/// A search that ends in front of what was replaced finds what it found before.
pub proof fn lemma_found_before(
    xml: Seq<u8>,
    from: int,
    to: int,
    new: Seq<u8>,
    needle: Seq<u8>,
    i: int,
    p: int,
)
    requires
        0 <= i <= p,
        p + needle.len() <= from <= to <= xml.len(),
        find_from(xml, needle, i) == Some(p),
    ensures
        find_from(replace(xml, from, to, new), needle, i) == Some(p),
{
    let whole = replace(xml, from, to, new);
    lemma_find_from(xml, needle, i);
    lemma_occurs_before(xml, from, to, new, needle, p);
    assert forall|q: int| i <= q < p implies !#[trigger] occurs_at(whole, needle, q) by {
        lemma_occurs_before(xml, from, to, new, needle, q);
        assert(!occurs_at(xml, needle, q));
    }
    lemma_find_from_is(whole, needle, i, p);
}

/// A count that was made larger is read as one more, where it stands behind the tag's name.
pub proof fn law_count_grows(xml: Seq<u8>, tag: Seq<char>, attr: Seq<char>)
    requires
        find(xml, utf8(tag)) matches Some(pos) ==> (find_from(xml, utf8(attr), pos) matches Some(a)
            ==> pos + utf8(tag).len() <= a),
    ensures
        count_bumped(xml, tag, attr) matches Some(Ok(bumped)) ==> count_in(xml, tag, attr)
            matches Some(n) && n < u32::MAX && count_in(bumped, tag, attr) == Some((n + 1) as u32),
{
    if let Some(Ok(bumped)) = count_bumped(xml, tag, attr) {
        let quote = utf8("\""@);
        lemma_quote();
        lemma_find_from(xml, utf8(tag), 0);
        let pos = find(xml, utf8(tag))->0;
        lemma_find_from(xml, utf8(attr), pos);
        let a = find_from(xml, utf8(attr), pos)->0;
        let start = a + utf8(attr).len();
        lemma_find_from(xml, quote, start);
        let end = find_from(xml, quote, start)->0;
        let n = count_in(xml, tag, attr)->0;
        let digits = utf8(decimal((n + 1) as nat));
        lemma_digits((n + 1) as nat);
        lemma_found_before(xml, start, end, digits, utf8(tag), 0, pos);
        lemma_found_before(xml, start, end, digits, utf8(attr), pos, a);
        lemma_quote_behind(xml, start, end, (n + 1) as nat, start);
    }
}

// ---- clearing -----------------------------------------------------------------------------

/// Clearing a sheet that was cleared changes nothing.
pub proof fn law_clear_again(sheet: SheetView)
    ensures
        sheet_cleared(sheet) matches Some(outcome) ==> (outcome.result is Ok ==> sheet_cleared(
            outcome.sheet,
        ) == Some(outcome)),
{
    if let Some(outcome) = sheet_cleared(sheet) {
        if outcome.result is Ok {
            let xml = sheet.xml;
            let close = utf8("</sheetData>"@);
            let bracket = utf8(">"@);
            reveal_strlit(">");
            lemma_utf8_ascii(">"@);
            reveal_strlit("<sheetData");
            lemma_utf8_ascii("<sheetData"@);
            lemma_sheet_ends();
            lemma_find_from(xml, utf8("<sheetData"@), 0);
            let start = find(xml, utf8("<sheetData"@))->0;
            lemma_find_from(xml, bracket, start);
            let open_end = find_from(xml, bracket, start)->0 + 1;
            lemma_find_from(xml, close, 0);
            let end = find(xml, close)->0;
            let none = Seq::<u8>::empty();
            let whole = replace(xml, open_end, end, none);
            lemma_byte_at(xml, bracket, open_end - 1, 0);
            if open_end < start + 10 {
                lemma_byte_at(xml, utf8("<sheetData"@), start, open_end - 1 - start);
                assert(utf8("<sheetData"@)[open_end - 1 - start]
                    == "<sheetData"@[open_end - 1 - start] as u8);
            }
            lemma_found_before(xml, open_end, end, none, utf8("<sheetData"@), 0, start);
            lemma_found_before(xml, open_end, end, none, bracket, start, open_end - 1);
            lemma_occurs_behind(xml, open_end, end, none, close, open_end);
            assert forall|p: int| 0 <= p < open_end implies !#[trigger] occurs_at(whole, close, p) by {
                if occurs_at(whole, close, p) {
                    if p + close.len() <= open_end {
                        lemma_occurs_before(xml, open_end, end, none, close, p);
                        assert(occurs_at(xml, close, p));
                    } else {
                        lemma_byte_at(whole, close, p, open_end - 1 - p);
                    }
                }
            }
            lemma_find_from_is(whole, close, 0, open_end);
            assert(replace(whole, open_end, open_end, none) =~= whole);
        }
    }
}

/// The first row that is appended to a sheet that was cleared has the number one.
pub proof fn law_clear_then_append(sheet: SheetView, cells: Seq<Seq<char>>)
    ensures
        sheet_cleared(sheet) matches Some(cleared) ==> (cleared.result is Ok ==> (row_appended(
            cleared.sheet,
            cells,
        ) matches Some(outcome) && outcome.sheet.last_row == 1)),
{
}

/// Overwriting a sheet with a table forgets the rows that were there: it gives what overwriting the
/// sheet without them gives.
pub proof fn law_overwrite_forgets(sheet: SheetView, coord: Seq<char>, table: Seq<Seq<Seq<char>>>)
    ensures
        sheet_cleared(sheet) matches Some(cleared) ==> (cleared.result is Ok ==> sheet_overwritten(
            sheet,
            coord,
            table,
        ) == sheet_overwritten(cleared.sheet, coord, table)),
{
    law_clear_again(sheet);
}

/// What starts a piece that is put in is found there, where it does not stand in front of the piece
/// and its first byte does not come again in it.
pub proof fn lemma_found_at_start(xml: Seq<u8>, i: int, at: int, new: Seq<u8>, needle: Seq<u8>)
    requires
        0 <= i <= at <= xml.len(),
        0 < needle.len() <= new.len(),
        new.subrange(0, needle.len() as int) == needle,
        forall|k: int| 0 < k < needle.len() ==> #[trigger] needle[k] != needle[0],
        find_from(xml, needle, i) matches Some(p) ==> p >= at,
    ensures
        find_from(insert(xml, at, new), needle, i) == Some(at),
{
    let whole = insert(xml, at, new);
    lemma_find_from(xml, needle, i);
    lemma_occurs_within(xml, at, at, new, needle, at);
    assert(new[0] == needle[0]) by {
        assert(new.subrange(0, needle.len() as int)[0] == new[0]);
    }
    assert(whole[at] == new[0]);
    assert forall|p: int| i <= p < at implies !#[trigger] occurs_at(whole, needle, p) by {
        if occurs_at(whole, needle, p) {
            if p + needle.len() <= at {
                lemma_occurs_before(xml, at, at, new, needle, p);
                assert(occurs_at(xml, needle, p));
            } else {
                lemma_byte_at(whole, needle, p, at - p);
                assert(needle[at - p] != needle[0]);
            }
        }
    }
    lemma_find_from_is(whole, needle, i, at);
}

// ---- attributes ---------------------------------------------------------------------------

/// An attribute that a tag was given is read back, where its value holds no quote and its name stands
/// behind its only space.
pub proof fn law_attribute_read_back(tag: Seq<u8>, head: Seq<char>, value: Seq<char>)
    requires
        utf8(head).len() > 0,
        forall|k: int| 0 < k < utf8(head).len() ==> #[trigger] utf8(head)[k] != utf8(head)[0],
        forall|k: int| 0 <= k < utf8(value).len() ==> #[trigger] utf8(value)[k] != 34,
    ensures
        tag_with_attribute(tag, head, value) matches Some(set) ==> value_in_tag(set, head) == Some(
            utf8(value),
        ),
{
    let h = utf8(head);
    let v = utf8(value);
    let quote = utf8("\""@);
    lemma_quote();
    lemma_find_from(tag, h, 0);
    if let Some(set) = tag_with_attribute(tag, head, value) {
        match find(tag, h) {
            Some(at) => {
                let start = at + h.len();
                lemma_find_from(tag, quote, start);
                let end = find_from(tag, quote, start)->0;
                lemma_found_before(tag, start, end, v, h, 0, at);
                lemma_occurs_behind(tag, start, end, v, quote, start + v.len());
                assert(set.subrange(start, start + v.len()) =~= v);
                lemma_value_read(set, start, v);
            },
            None => {
                let at = if tag[tag.len() - 2] == 47 {
                    tag.len() - 2
                } else {
                    tag.len() - 1
                };
                lemma_utf8_concat(head, value);
                lemma_utf8_concat(head + value, "\""@);
                let new = utf8(head + value + "\""@);
                assert(new == h + v + quote);
                assert(new.subrange(0, h.len() as int) =~= h);
                lemma_found_at_start(tag, 0, at, new, h);
                assert(new.subrange((h.len() + v.len()) as int, new.len() as int) =~= quote);
                lemma_occurs_within(tag, at, at, new, quote, at + h.len() + v.len());
                assert(set.subrange(at + h.len(), at + h.len() + v.len()) =~= v);
                lemma_value_read(set, at + h.len(), v);
            },
        }
    }
}

/// A value without quotes that stands in front of a quote is what is read.
proof fn lemma_value_read(tag: Seq<u8>, start: int, v: Seq<u8>)
    requires
        0 <= start,
        start + v.len() <= tag.len(),
        tag.subrange(start, start + v.len()) == v,
        forall|k: int| 0 <= k < v.len() ==> #[trigger] v[k] != 34,
        occurs_at(tag, utf8("\""@), start + v.len()),
    ensures
        find_from(tag, utf8("\""@), start) == Some(start + v.len()),
{
    let quote = utf8("\""@);
    lemma_quote();
    assert forall|p: int| start <= p < start + v.len() implies !#[trigger] occurs_at(tag, quote, p) by {
        if occurs_at(tag, quote, p) {
            lemma_byte_at(tag, quote, p, 0);
            assert(tag.subrange(start, start + v.len())[p - start] == v[p - start]);
        }
    }
    lemma_find_from_is(tag, quote, start, start + v.len());
}

/// Giving a tag an attribute, and giving it once more, is giving it the second time alone, where the
/// first value holds no quote and the name stands behind its only space.
pub proof fn law_attribute_overwritten(
    tag: Seq<u8>,
    head: Seq<char>,
    first: Seq<char>,
    second: Seq<char>,
)
    requires
        utf8(head).len() > 0,
        forall|k: int| 0 < k < utf8(head).len() ==> #[trigger] utf8(head)[k] != utf8(head)[0],
        forall|k: int| 0 <= k < utf8(first).len() ==> #[trigger] utf8(first)[k] != 34,
    ensures
        tag_with_attribute(tag, head, first) matches Some(set) ==> tag_with_attribute(
            set,
            head,
            second,
        ) == tag_with_attribute(tag, head, second),
{
    let h = utf8(head);
    let v = utf8(first);
    let quote = utf8("\""@);
    lemma_quote();
    lemma_find_from(tag, h, 0);
    if let Some(set) = tag_with_attribute(tag, head, first) {
        match find(tag, h) {
            Some(at) => {
                let start = at + h.len();
                lemma_find_from(tag, quote, start);
                let end = find_from(tag, quote, start)->0;
                lemma_found_before(tag, start, end, v, h, 0, at);
                lemma_occurs_behind(tag, start, end, v, quote, start + v.len());
                assert(set.subrange(start, start + v.len()) =~= v);
                lemma_value_read(set, start, v);
                assert(replace(set, start, start + v.len(), utf8(second)) =~= replace(
                    tag,
                    start,
                    end,
                    utf8(second),
                ));
            },
            None => {
                let at = if tag[tag.len() - 2] == 47 {
                    tag.len() - 2
                } else {
                    tag.len() - 1
                };
                lemma_utf8_concat(head, first);
                lemma_utf8_concat(head + first, "\""@);
                lemma_utf8_concat(head, second);
                lemma_utf8_concat(head + second, "\""@);
                let new = utf8(head + first + "\""@);
                assert(new == h + v + quote);
                assert(new.subrange(0, h.len() as int) =~= h);
                lemma_found_at_start(tag, 0, at, new, h);
                assert(new.subrange((h.len() + v.len()) as int, new.len() as int) =~= quote);
                lemma_occurs_within(tag, at, at, new, quote, at + h.len() + v.len());
                let start = at + h.len();
                assert(set.subrange(start, start + v.len()) =~= v);
                lemma_value_read(set, start, v);
                assert(replace(set, start, start + v.len(), utf8(second)) =~= insert(
                    tag,
                    at,
                    utf8(head + second + "\""@),
                ));
            },
        }
    }
}

} // verus!
