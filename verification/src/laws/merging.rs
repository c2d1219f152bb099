//! Merging cells again and again.

use vstd::prelude::*;
use crate::bytes::{
    find, find_from, insert, lemma_find_from, lemma_find_from_is, occurs_at, replace,
};
use crate::laws::cells::lemma_digits;
use crate::laws::marks::lemma_found_before;
use crate::laws::pieces::{
    lemma_byte_at, lemma_no_byte, lemma_occurs_apart, lemma_occurs_before, lemma_occurs_within,
    tag_like,
};
use crate::laws::shapes::lemma_sheet_ends;
use crate::markup::count_bumped;
use crate::merge::{cells_merged, merge_tag};
use crate::sheet::{edited, lemma_quote, SheetView};
use crate::text::{decimal, lemma_utf8_ascii, lemma_utf8_concat, utf8};

verus! {

/// A list of `count` merged ranges with the tags `tags`.
pub open spec fn merge_list(count: nat, tags: Seq<char>) -> Seq<char> {
    "<mergeCells count=\""@ + decimal(count) + "\">"@ + tags + "</mergeCells>"@
}

/// A list with the tags `tags` ends behind them and not before.
pub open spec fn ends_once(tags: Seq<char>) -> bool {
    forall|q: int| #[trigger]
        occurs_at(utf8(tags) + utf8("</mergeCells>"@), utf8("</mergeCells>"@), q) ==> q
            == utf8(tags).len()
}

/// The bytes of the start and the end of a list of merged ranges.
proof fn lemma_list_bytes()
    ensures
        utf8("<mergeCells"@).len() == 11,
        tag_like(utf8("<mergeCells"@)),
        utf8("</mergeCells>"@).len() == 13,
        tag_like(utf8("</mergeCells>"@)),
        utf8("</mergeCells>"@)[1] == 47,
        utf8("</mergeCells>"@)[12] == 62,
        utf8("<mergeCells count=\""@).len() == 19,
        utf8("<mergeCells count=\""@).take(11) == utf8("<mergeCells"@),
        utf8("<mergeCells count=\""@).skip(12) == utf8("count=\""@),
        utf8("count=\""@).len() == 7,
        utf8("count=\""@)[0] == 99,
        forall|i: int| 0 <= i < 12 ==> #[trigger] utf8("<mergeCells count=\""@)[i] != 99,
        forall|i: int| 0 < i < 19 ==> #[trigger] utf8("<mergeCells count=\""@)[i] != 60,
        utf8("<mergeCells count=\""@)[1] != 47,
        utf8("\">"@) == seq![34u8, 62u8],
{
    reveal_strlit("<mergeCells");
    reveal_strlit("</mergeCells>");
    reveal_strlit("<mergeCells count=\"");
    reveal_strlit("count=\"");
    reveal_strlit("\">");
    lemma_utf8_ascii("<mergeCells"@);
    lemma_utf8_ascii("</mergeCells>"@);
    lemma_utf8_ascii("<mergeCells count=\""@);
    lemma_utf8_ascii("count=\""@);
    lemma_utf8_ascii("\">"@);
    let head = utf8("<mergeCells count=\""@);
    assert forall|i: int| 0 <= i < 19 implies (i < 12 ==> #[trigger] head[i] != 99) && (i > 0
        ==> head[i] != 60) by {
        assert(head[i] == "<mergeCells count=\""@[i] as u8);
    }
    assert(head.take(11) =~= utf8("<mergeCells"@)) by {
        assert forall|i: int| 0 <= i < 11 implies head[i] == #[trigger] utf8("<mergeCells"@)[i] by {
            assert(head[i] == "<mergeCells count=\""@[i] as u8);
        }
    }
    assert(head.skip(12) =~= utf8("count=\""@)) by {
        assert forall|i: int| 0 <= i < 7 implies head[12 + i] == #[trigger] utf8("count=\""@)[i] by {
            assert(head[12 + i] == "<mergeCells count=\""@[12 + i] as u8);
        }
    }
    let open = utf8("<mergeCells"@);
    assert forall|i: int| 0 <= i < 11 implies (i > 0 ==> #[trigger] open[i] != 60) && open[i]
        != 62 by {
        assert(open[i] == "<mergeCells"@[i] as u8);
    }
    let close = utf8("</mergeCells>"@);
    assert forall|i: int| 0 <= i < 13 implies (i > 0 ==> #[trigger] close[i] != 60) && (i < 12
        ==> close[i] != 62) by {
        assert(close[i] == "</mergeCells>"@[i] as u8);
    }
    assert(open[0] == "<mergeCells"@[0] as u8);
    assert(close[0] == "</mergeCells>"@[0] as u8);
    assert(close[1] == "</mergeCells>"@[1] as u8);
    assert(close[12] == "</mergeCells>"@[12] as u8);
    assert(head[1] == "<mergeCells count=\""@[1] as u8);
    assert(utf8("\">"@) =~= seq![34u8, 62u8]);
}

/// The bytes of a list of merged ranges: its start, its count, its tags and its end.
proof fn lemma_list_parts(count: nat, tags: Seq<char>)
    ensures
        utf8(merge_list(count, tags)) == utf8("<mergeCells count=\""@) + utf8(decimal(count))
            + utf8("\">"@) + utf8(tags) + utf8("</mergeCells>"@),
{
    let head = "<mergeCells count=\""@;
    lemma_utf8_concat(head, decimal(count));
    lemma_utf8_concat(head + decimal(count), "\">"@);
    lemma_utf8_concat(head + decimal(count) + "\">"@, tags);
    lemma_utf8_concat(head + decimal(count) + "\">"@ + tags, "</mergeCells>"@);
}

/// The count of a list that was put into a document without one grows by one.
proof fn lemma_list_counted(xml: Seq<u8>, e: int, count: u32, tags: Seq<char>)
    requires
        find(xml, utf8("<mergeCells"@)) is None,
        0 <= e <= xml.len(),
        count < u32::MAX,
    ensures
        ({
            let whole = insert(xml, e, utf8(merge_list(count as nat, tags)));
            &&& find(whole, utf8("<mergeCells"@)) == Some(e)
            &&& count_bumped(whole, "<mergeCells"@, "count=\""@) == Some(
                Ok::<Seq<u8>, crate::error::ErrorView>(
                    insert(xml, e, utf8(merge_list((count + 1) as nat, tags))),
                ),
            )
        }),
{
    let n = count as nat;
    let list = utf8(merge_list(n, tags));
    let head = utf8("<mergeCells count=\""@);
    let digits = utf8(decimal(n));
    let open = utf8("<mergeCells"@);
    let attr = utf8("count=\""@);
    let quote = utf8("\""@);
    let d = digits.len() as int;
    let whole = insert(xml, e, list);
    lemma_list_bytes();
    lemma_list_parts(n, tags);
    lemma_list_parts((count + 1) as nat, tags);
    lemma_digits(n);
    lemma_digits((count + 1) as nat);
    lemma_quote();
    assert forall|i: int| 0 <= i < 19 implies #[trigger] list[i] == head[i] by {}
    assert(list[0] == open[0]) by {
        assert(head.take(11)[0] == head[0]);
    }
    assert(list.last() == utf8("</mergeCells>"@)[12]);
    assert(list.subrange(0, 11) =~= open) by {
        assert forall|i: int| 0 <= i < 11 implies list[i] == #[trigger] open[i] by {
            assert(head.take(11)[i] == head[i]);
        }
    }
    lemma_find_from(xml, open, 0);
    lemma_occurs_within(xml, e, e, list, open, e);
    assert forall|p: int| 0 <= p < e implies !#[trigger] occurs_at(whole, open, p) by {
        if occurs_at(whole, open, p) {
            lemma_occurs_apart(xml, e, e, list, open, p);
            lemma_occurs_before(xml, e, e, list, open, p);
            assert(occurs_at(xml, open, p));
        }
    }
    lemma_find_from_is(whole, open, 0, e);
    assert(list.subrange(12, 19) =~= attr) by {
        assert forall|i: int| 0 <= i < 7 implies list[12 + i] == #[trigger] attr[i] by {
            assert(head.skip(12)[i] == head[12 + i]);
        }
    }
    lemma_occurs_within(xml, e, e, list, attr, e + 12);
    assert forall|p: int| e <= p < e + 12 implies !#[trigger] occurs_at(whole, attr, p) by {
        if occurs_at(whole, attr, p) {
            lemma_byte_at(whole, attr, p, 0);
            assert(whole[p] == list[p - e]);
        }
    }
    lemma_find_from_is(whole, attr, e, e + 12);
    let start = e + 19;
    assert forall|i: int| 0 <= i < d implies whole[start + i] == #[trigger] digits[i] by {
        assert(list[19 + i] == digits[i]);
    }
    assert(list[19 + d] == utf8("\">"@)[0]);
    assert(whole[start + d] == 34);
    assert(whole.subrange(start + d, start + d + 1) =~= quote);
    assert forall|p: int| start <= p < start + d implies !#[trigger] occurs_at(whole, quote, p) by {
        if occurs_at(whole, quote, p) {
            lemma_byte_at(whole, quote, p, 0);
            assert(whole[start + (p - start)] == digits[p - start]);
        }
    }
    lemma_find_from_is(whole, quote, start, start + d);
    assert(whole.subrange(start, start + d) =~= digits);
    let more = utf8(decimal((count + 1) as nat));
    let longer = utf8(merge_list((count + 1) as nat, tags));
    assert(replace(whole, start, start + d, more) =~= insert(xml, e, longer));
}

/// Where a list that was put into a document ends.
proof fn lemma_list_end(xml: Seq<u8>, e: int, count: nat, tags: Seq<char>)
    requires
        0 <= e <= xml.len(),
        ends_once(tags),
    ensures
        ({
            let list = utf8(merge_list(count, tags));
            let whole = insert(xml, e, list);
            find_from(whole, utf8("</mergeCells>"@), e) == Some(e + list.len() - 13)
        }),
{
    let list = utf8(merge_list(count, tags));
    let whole = insert(xml, e, list);
    let head = utf8("<mergeCells count=\""@);
    let digits = utf8(decimal(count));
    let close = utf8("</mergeCells>"@);
    lemma_list_bytes();
    lemma_list_parts(count, tags);
    lemma_digits(count);
    let h = 21 + digits.len() as int;
    let tail = utf8(tags) + close;
    let end = list.len() - 13;
    assert(end == h + utf8(tags).len());
    assert(list.subrange(h, list.len() as int) =~= tail);
    assert(list.subrange(end, end + 13) =~= close);
    lemma_occurs_within(xml, e, e, list, close, e + end);
    assert forall|i: int| 0 < i < h implies #[trigger] list[i] != 60 by {
        if i < 19 {
            assert(list[i] == head[i]);
        } else if i < h - 2 {
            assert(list[i] == digits[i - 19]);
        } else {
            assert(list[i] == utf8("\">"@)[i - (h - 2)]);
        }
    }
    assert(list[1] == head[1]);
    assert forall|p: int| e <= p < e + end implies !#[trigger] occurs_at(whole, close, p) by {
        if occurs_at(whole, close, p) {
            let q = p - e;
            lemma_occurs_within(xml, e, e, list, close, p);
            lemma_byte_at(list, close, q, 0);
            lemma_byte_at(list, close, q, 1);
            assert(q >= h);
            assert(tail.subrange(q - h, q - h + 13) =~= list.subrange(q, q + 13));
            assert(occurs_at(tail, close, q - h));
        }
    }
    lemma_find_from_is(whole, close, e, e + end);
}

/// Merging cells in a sheet with a list of merged ranges behind its data adds the range to the end
/// of the list, and the count stays that of the ranges.
pub proof fn law_merge_grows(sheet: SheetView, count: u32, tags: Seq<char>, range: Seq<char>)
    requires
        find(sheet.xml, utf8("</sheetData>"@)) is Some,
        find(sheet.xml, utf8("<mergeCells"@)) is None,
        count < u32::MAX,
        ends_once(tags),
    ensures
        ({
            let e = find(sheet.xml, utf8("</sheetData>"@))->0 + utf8("</sheetData>"@).len();
            cells_merged(
                SheetView {
                    xml: insert(sheet.xml, e, utf8(merge_list(count as nat, tags))),
                    ..sheet
                },
                range,
            ) == Some(
                edited(
                    sheet,
                    insert(
                        sheet.xml,
                        e,
                        utf8(merge_list((count + 1) as nat, tags + merge_tag(range))),
                    ),
                ),
            )
        }),
{
    let xml = sheet.xml;
    let data = utf8("</sheetData>"@);
    lemma_sheet_ends();
    lemma_find_from(xml, data, 0);
    let at = find(xml, data)->0;
    let e = at + 12;
    let list = utf8(merge_list(count as nat, tags));
    lemma_found_before(xml, e, e, list, data, 0, at);
    lemma_list_counted(xml, e, count, tags);
    let next = (count + 1) as nat;
    lemma_list_end(xml, e, next, tags);
    lemma_list_bytes();
    lemma_list_parts(next, tags);
    lemma_list_parts(next, tags + merge_tag(range));
    lemma_utf8_concat(tags, merge_tag(range));
    let bumped = insert(xml, e, utf8(merge_list(next, tags)));
    let end = e + utf8(merge_list(next, tags)).len() - 13;
    assert(insert(bumped, end, utf8(merge_tag(range))) =~= insert(
        xml,
        e,
        utf8(merge_list(next, tags + merge_tag(range))),
    ));
}

/// Merging cells in a sheet without a list of merged ranges makes one behind its data, with the
/// count one.
pub proof fn law_merge_starts(sheet: SheetView, range: Seq<char>)
    requires
        find(sheet.xml, utf8("</sheetData>"@)) is Some,
        find(sheet.xml, utf8("<mergeCells"@)) is None,
    ensures
        cells_merged(sheet, range) == Some(
            edited(
                sheet,
                insert(
                    sheet.xml,
                    find(sheet.xml, utf8("</sheetData>"@))->0 + utf8("</sheetData>"@).len(),
                    utf8(merge_list(1, merge_tag(range))),
                ),
            ),
        ),
{
    reveal_strlit("<mergeCells count=\"1\">");
    reveal_strlit("<mergeCells count=\"");
    reveal_strlit("\">");
    assert("<mergeCells count=\"1\">"@ =~= "<mergeCells count=\""@ + decimal(1) + "\">"@);
}

/// A list ends behind its tags still when one for a range without `<` is added.
pub proof fn law_list_ends_once(tags: Seq<char>, range: Seq<char>)
    requires
        ends_once(tags),
        forall|i: int| 0 <= i < range.len() ==> #[trigger] range[i] != '<',
    ensures
        ends_once(tags + merge_tag(range)),
{
    let close = utf8("</mergeCells>"@);
    let tag = utf8(merge_tag(range));
    let front = utf8(tags);
    lemma_list_bytes();
    lemma_utf8_concat(tags, merge_tag(range));
    lemma_merge_tag(range);
    let all = front + tag + close;
    assert(utf8(tags + merge_tag(range)) + close =~= all);
    assert forall|q: int| #[trigger] occurs_at(all, close, q) implies q == front.len()
        + tag.len() by {
        lemma_byte_at(all, close, q, 0);
        lemma_byte_at(all, close, q, 1);
        if q >= front.len() && q < front.len() + tag.len() {
            assert(all[q] == tag[q - front.len()]);
            if q + 1 < front.len() + tag.len() {
                assert(all[q + 1] == tag[q + 1 - front.len()]);
            } else {
                assert(tag[tag.len() - 1] == 62);
            }
        } else if q < front.len() {
            if q + 13 <= front.len() {
                let short = front + close;
                assert(short.subrange(q, q + 13) =~= all.subrange(q, q + 13));
                assert(occurs_at(short, close, q));
            } else {
                lemma_byte_at(all, close, q, front.len() - q);
                assert(all[front.len() as int] == tag[0]);
            }
        } else if q > front.len() + tag.len() {
            assert(all[q] == close[q - front.len() - tag.len()]);
        }
    }
}

/// The tag of a merged range without `<` has its only `<` at its start, with an `m` behind it.
proof fn lemma_merge_tag(range: Seq<char>)
    requires
        forall|i: int| 0 <= i < range.len() ==> #[trigger] range[i] != '<',
    ensures
        utf8(merge_tag(range)).len() > 2,
        utf8(merge_tag(range))[0] == 60,
        utf8(merge_tag(range))[1] == 109,
        utf8(merge_tag(range)).last() == 62,
        forall|i: int|
            0 < i < utf8(merge_tag(range)).len() ==> #[trigger] utf8(merge_tag(range))[i] != 60,
{
    reveal_strlit("<mergeCell ref=\"");
    reveal_strlit("\"/>");
    let head = "<mergeCell ref=\""@;
    let tail = "\"/>"@;
    lemma_utf8_ascii(head);
    lemma_utf8_ascii(tail);
    lemma_utf8_concat(head, range);
    lemma_utf8_concat(head + range, tail);
    lemma_no_byte(range, '<');
    let tag = utf8(merge_tag(range));
    let h = utf8(head);
    let r = utf8(range);
    let t = utf8(tail);
    assert(tag == h + r + t);
    assert(h[0] == head[0] as u8 && h[1] == head[1] as u8);
    assert(t[2] == tail[2] as u8);
    assert forall|i: int| 0 < i < tag.len() implies #[trigger] tag[i] != 60 by {
        if i < h.len() {
            assert(tag[i] == h[i]);
            assert(h[i] == head[i] as u8);
        } else if i < h.len() + r.len() {
            assert(tag[i] == r[i - h.len()]);
        } else {
            assert(tag[i] == t[i - h.len() - r.len()]);
            assert(t[i - h.len() - r.len()] == tail[i - h.len() - r.len()] as u8);
        }
    }
}

/// A list without tags ends at once.
pub proof fn law_empty_list_ends_once()
    ensures
        ends_once(Seq::empty()),
{
    let close = utf8("</mergeCells>"@);
    lemma_list_bytes();
    let none = Seq::<char>::empty();
    assert(utf8(none) =~= Seq::<u8>::empty());
    assert(utf8(none) + close =~= close);
    assert forall|q: int| #[trigger] occurs_at(close, close, q) implies q == 0 by {}
}

} // verus!
