//! The style that a column was given.

use vstd::prelude::*;
use vstd::utf8::is_ascii_chars;
use crate::bytes::{
    find, find_from, insert, lemma_find_from, lemma_find_from_is, occurs_at, replace,
};
use crate::error::ErrorView;
use crate::laws::cells::lemma_digits;
use crate::laws::marks::law_attribute_read_back;
use crate::laws::pieces::{
    element_like, lemma_byte_at, lemma_occurs_apart, lemma_occurs_before, tag_like,
};
use crate::laws::tidy::{lemma_first_end, lemma_first_end_is};
use crate::paint::{column_painted, column_style, column_tag};
use crate::sheet::SheetView;
use crate::tags::{is_ended, lemma_bracket, tag_at, tag_stop, tag_with_attribute};
use crate::text::{
    decimal, is_digit, lemma_decimal_digits, lemma_utf8_ascii, lemma_utf8_concat, utf8,
};

verus! {

/// The characters of the start of a column's tag.
proof fn lemma_column_tag(number: nat)
    ensures
        ({
            let text = column_tag(decimal(number));
            &&& is_ascii_chars(text)
            &&& utf8(text).len() == text.len()
            &&& text.len() > 5
            &&& tag_like(utf8(text))
            &&& utf8(text)[1] == 99
            &&& utf8(text)[4] == 32
            &&& forall|i: int|
                0 <= i < utf8(text).len() ==> #[trigger] utf8(text)[i] != 47 && utf8(text)[i] != 115
                    && utf8(text)[i] != 62
        }),
{
    let digits = decimal(number);
    let text = column_tag(digits);
    reveal_strlit("<col min=\"");
    reveal_strlit("\" max=\"");
    reveal_strlit("\"");
    lemma_decimal_digits(number);
    let d = digits.len() as int;
    assert forall|i: int| 0 <= i < text.len() implies '\0' <= #[trigger] text[i] <= '\u{7f}' && text[i]
        != '/' && text[i] != 's' && text[i] != '>' && (i > 0 ==> text[i] != '<') by {
        if 10 <= i < 10 + d {
            assert(text[i] == digits[i - 10]);
            assert(is_digit(digits[i - 10]));
        } else if 17 + d <= i < 17 + d + d {
            assert(text[i] == digits[i - 17 - d]);
            assert(is_digit(digits[i - 17 - d]));
        }
    }
    assert(is_ascii_chars(text));
    lemma_utf8_ascii(text);
    assert forall|i: int| 0 <= i < utf8(text).len() implies #[trigger] utf8(text)[i] != 47 && utf8(
        text,
    )[i] != 115 && utf8(text)[i] != 62 && (i > 0 ==> utf8(text)[i] != 60) by {
        assert(utf8(text)[i] == text[i] as u8);
    }
    assert(utf8(text)[0] == text[0] as u8);
    assert(utf8(text)[1] == text[1] as u8);
    assert(utf8(text)[4] == text[4] as u8);
}

/// The first tag of a column in a document without one, where a piece with it was put in between
/// `front` and `back`.
proof fn lemma_column_found(xml: Seq<u8>, at: int, front: Seq<u8>, new: Seq<u8>, number: nat)
    requires
        0 <= at <= xml.len(),
        find(xml, utf8(column_tag(decimal(number)))) is None,
        element_like(new),
        front.len() <= new.len(),
        new.take(front.len() as int) == front,
        occurs_at(
            insert(xml, at, new),
            utf8(column_tag(decimal(number))),
            at + front.len(),
        ),
        forall|q: int|
            0 <= q < front.len() && #[trigger] front[q] == 60 ==> q + 4 < front.len() && front[q + 4]
                != 32,
    ensures
        find(insert(xml, at, new), utf8(column_tag(decimal(number)))) == Some(at + front.len()),
{
    let head = utf8(column_tag(decimal(number)));
    let whole = insert(xml, at, new);
    let start = at + front.len();
    lemma_column_tag(number);
    lemma_find_from(xml, head, 0);
    assert forall|p: int| 0 <= p < start implies !#[trigger] occurs_at(whole, head, p) by {
        if occurs_at(whole, head, p) {
            lemma_occurs_apart(xml, at, at, new, head, p);
            if p + head.len() <= at {
                lemma_occurs_before(xml, at, at, new, head, p);
                assert(occurs_at(xml, head, p));
            } else {
                let q = p - at;
                lemma_byte_at(whole, head, p, 0);
                lemma_byte_at(whole, head, p, 4);
                assert(whole[p] == new[q]);
                assert(new.take(front.len() as int)[q] == new[q]);
                assert(whole[p + 4] == new[q + 4]);
                assert(new.take(front.len() as int)[q + 4] == new[q + 4]);
            }
        }
    }
    lemma_find_from_is(whole, head, 0, start);
}

/// The bytes of ` style="`.
proof fn lemma_style_name()
    ensures
        utf8(" style=\""@).len() == 8,
        utf8(" style=\""@)[0] == 32,
        utf8(" style=\""@)[1] == 115,
        forall|k: int| 0 < k < 8 ==> #[trigger] utf8(" style=\""@)[k] != 32,
        forall|k: int|
            0 <= k < 8 ==> #[trigger] utf8(" style=\""@)[k] != 62 && utf8(" style=\""@)[k] != 60,
{
    let head = utf8(" style=\""@);
    reveal_strlit(" style=\"");
    lemma_utf8_ascii(" style=\""@);
    assert forall|k: int| 0 <= k < 8 implies #[trigger] head[k] != 62 && head[k] != 60 && (k > 0
        ==> head[k] != 32) by {
        assert(head[k] == " style=\""@[k] as u8);
    }
    assert(head[0] == " style=\""@[0] as u8);
    assert(head[1] == " style=\""@[1] as u8);
}

/// A tag of a column: it starts as such, and ends with its only `>`.
spec fn is_column(tag: Seq<u8>, number: nat) -> bool {
    &&& occurs_at(tag, utf8(column_tag(decimal(number))), 0)
    &&& tag.last() == 62
    &&& forall|k: int| 0 <= k < tag.len() - 1 ==> #[trigger] tag[k] != 62
}

/// The tag of a column with a style is one still.
#[verifier::spinoff_prover]
#[verifier::rlimit(60)]
proof fn lemma_column_styled(tag: Seq<u8>, number: nat, style: u32)
    requires
        is_column(tag, number),
        tag_with_attribute(tag, " style=\""@, decimal(style as nat)) is Some,
    ensures
        is_column(tag_with_attribute(tag, " style=\""@, decimal(style as nat))->0, number),
        tag.len() > utf8(column_tag(decimal(number))).len(),
{
    let start = utf8(column_tag(decimal(number)));
    let head = utf8(" style=\""@);
    let digits = utf8(decimal(style as nat));
    let quote = utf8("\""@);
    let set = tag_with_attribute(tag, " style=\""@, decimal(style as nat))->0;
    let n = start.len() as int;
    lemma_column_tag(number);
    lemma_style_name();
    lemma_digits(style as nat);
    crate::sheet::lemma_quote();
    lemma_find_from(tag, head, 0);
    lemma_byte_at(tag, start, 0, n - 1);
    assert(n < tag.len()) by {
        if n == tag.len() {
            assert(start[n - 1] != 62);
        }
    }
    match find(tag, head) {
        Some(at) => {
            lemma_byte_at(tag, head, at, 0);
            lemma_byte_at(tag, head, at, 1);
            if at < n {
                lemma_byte_at(tag, start, 0, at);
                if at + 1 < n {
                    lemma_byte_at(tag, start, 0, at + 1);
                }
            }
            let from = at + 8;
            lemma_find_from(tag, quote, from);
            let end = find_from(tag, quote, from)->0;
            lemma_byte_at(tag, quote, end, 0);
            assert(set =~= tag.take(from) + digits + tag.skip(end));
            lemma_changed(tag, from, end, digits, start);
        },
        None => {
            let at = if tag[tag.len() - 2] == 47 {
                tag.len() - 2
            } else {
                tag.len() - 1
            };
            if at < n {
                lemma_byte_at(tag, start, 0, at);
            }
            lemma_utf8_concat(" style=\""@, decimal(style as nat));
            lemma_utf8_concat(" style=\""@ + decimal(style as nat), "\""@);
            let new = utf8(" style=\""@ + decimal(style as nat) + "\""@);
            assert(new == head + digits + quote);
            assert forall|k: int| 0 <= k < new.len() implies #[trigger] new[k] != 62 by {
                if k < 8 {
                    assert(new[k] == head[k]);
                } else if k < 8 + digits.len() {
                    assert(new[k] == digits[k - 8]);
                } else {
                    assert(new[k] == quote[0]);
                }
            }
            lemma_changed(tag, at, at, new, start);
        },
    }
}

/// A tag that is changed behind its start and in front of its end.
proof fn lemma_changed(tag: Seq<u8>, from: int, to: int, new: Seq<u8>, start: Seq<u8>)
    requires
        occurs_at(tag, start, 0),
        start.len() <= from <= to < tag.len(),
        tag.last() == 62,
        forall|k: int| 0 <= k < tag.len() - 1 ==> #[trigger] tag[k] != 62,
        forall|k: int| 0 <= k < new.len() ==> #[trigger] new[k] != 62,
    ensures
        ({
            let set = replace(tag, from, to, new);
            &&& occurs_at(set, start, 0)
            &&& set.last() == 62
            &&& forall|k: int| 0 <= k < set.len() - 1 ==> #[trigger] set[k] != 62
        }),
{
    let set = replace(tag, from, to, new);
    lemma_occurs_before(tag, from, to, new, start, 0);
    assert(set.last() == tag.last());
    assert forall|k: int| 0 <= k < set.len() - 1 implies #[trigger] set[k] != 62 by {
        if k < from {
            assert(set[k] == tag[k]);
        } else if k < from + new.len() {
            assert(set[k] == new[k - from]);
        } else {
            assert(set[k] == tag[k - new.len() - from + to]);
        }
    }
}

/// The tag of a column that took the place of part of a document is found there.
proof fn lemma_column_there(xml: Seq<u8>, at: int, stop: int, set: Seq<u8>, number: nat)
    requires
        0 <= at <= stop <= xml.len(),
        find(xml, utf8(column_tag(decimal(number)))) == Some(at),
        stop >= at + utf8(column_tag(decimal(number))).len(),
        is_column(set, number),
    ensures
        find(replace(xml, at, stop, set), utf8(column_tag(decimal(number)))) == Some(at),
        tag_at(replace(xml, at, stop, set), at) == set,
        tag_stop(replace(xml, at, stop, set), at) == at + set.len(),
{
    let start = utf8(column_tag(decimal(number)));
    let whole = replace(xml, at, stop, set);
    let n = start.len() as int;
    lemma_column_tag(number);
    lemma_find_from(xml, start, 0);
    assert forall|i: int| 0 <= i < at + n implies #[trigger] whole[i] == xml[i] by {
        if i >= at {
            lemma_byte_at(xml, start, at, i - at);
            lemma_byte_at(set, start, 0, i - at);
        }
    }
    assert(whole.subrange(at, at + n) =~= xml.subrange(at, at + n));
    assert forall|p: int| 0 <= p < at implies !#[trigger] occurs_at(whole, start, p) by {
        if occurs_at(whole, start, p) {
            assert(xml.subrange(p, p + n) =~= whole.subrange(p, p + n));
            assert(occurs_at(xml, start, p));
        }
    }
    lemma_find_from_is(whole, start, 0, at);
    assert(whole.subrange(at, at + set.len()) =~= set);
    lemma_tag_placed(whole, at, set);
}

/// A tag that stands in a document.
proof fn lemma_tag_placed(whole: Seq<u8>, at: int, set: Seq<u8>)
    requires
        0 <= at,
        set.len() > 0,
        at + set.len() <= whole.len(),
        whole.subrange(at, at + set.len()) == set,
        set.last() == 62,
        forall|k: int| 0 <= k < set.len() - 1 ==> #[trigger] set[k] != 62,
    ensures
        tag_at(whole, at) == set,
        tag_stop(whole, at) == at + set.len(),
{
    let q = at + set.len() - 1;
    assert(whole[q] == whole.subrange(at, at + set.len())[set.len() - 1]);
    assert forall|k: int| at <= k < q implies #[trigger] whole[k] != 62 by {
        assert(whole[k] == whole.subrange(at, at + set.len())[k - at]);
        assert(set[k - at] != 62);
    }
    lemma_first_end_is(whole, at, q);
}

/// A column's tag without a style.
spec fn bare_column(number: nat) -> Seq<u8> {
    utf8(column_tag(decimal(number)) + "/>"@)
}

/// A new tag of a column is a tag without a style that was given one.
#[verifier::spinoff_prover]
#[verifier::rlimit(60)]
proof fn lemma_new_column(number: nat, style: u32)
    ensures
        ({
            let new = utf8(
                column_tag(decimal(number)) + (" style=\""@ + decimal(style as nat) + "\"/>"@),
            );
            &&& tag_with_attribute(bare_column(number), " style=\""@, decimal(style as nat)) == Some(
                new,
            )
            &&& is_column(new, number)
            &&& new[0] == 60
            &&& forall|k: int| 0 < k < new.len() ==> #[trigger] new[k] != 60
        }),
{
    let start = column_tag(decimal(number));
    let value = decimal(style as nat);
    let base = bare_column(number);
    let head = utf8(" style=\""@);
    let digits = utf8(value);
    let quote = utf8("\""@);
    lemma_column_tag(number);
    lemma_style_name();
    lemma_digits(style as nat);
    crate::sheet::lemma_quote();
    reveal_strlit("/>");
    reveal_strlit("\"/>");
    reveal_strlit("\"");
    lemma_utf8_ascii("/>"@);
    lemma_utf8_concat(start, "/>"@);
    let middle = " style=\""@ + value + "\""@;
    lemma_utf8_concat(" style=\""@, value);
    lemma_utf8_concat(" style=\""@ + value, "\""@);
    assert(start + (" style=\""@ + value + "\"/>"@) =~= (start + middle) + "/>"@);
    lemma_utf8_concat(start, middle);
    lemma_utf8_concat(start + middle, "/>"@);
    let end = utf8("/>"@);
    assert(end[0] == "/>"@[0] as u8 && end[1] == "/>"@[1] as u8);
    let new = utf8(start) + utf8(middle) + end;
    assert(base == utf8(start) + end);
    lemma_find_from(base, head, 0);
    if let Some(p) = find(base, head) {
        lemma_byte_at(base, head, p, 1);
        if p + 1 < utf8(start).len() {
            assert(base[p + 1] == utf8(start)[p + 1]);
        } else {
            assert(base[p + 1] == end[p + 1 - utf8(start).len()]);
        }
    }
    assert(base[base.len() - 2] == end[0]);
    assert(insert(base, base.len() - 2, utf8(middle)) =~= new);
    assert(new.subrange(0, utf8(start).len() as int) =~= utf8(start));
    assert(base.subrange(0, utf8(start).len() as int) =~= utf8(start));
    assert forall|k: int| 0 <= k < base.len() - 1 implies #[trigger] base[k] != 62 by {
        if k < utf8(start).len() {
            assert(base[k] == utf8(start)[k]);
        } else {
            assert(base[k] == end[0]);
        }
    }
    assert(base.last() == end[1]);
    lemma_column_styled(base, number, style);
    assert forall|k: int| 0 < k < new.len() implies #[trigger] new[k] != 60 by {
        let s = utf8(start).len() as int;
        let m = utf8(middle).len() as int;
        if k < s {
            assert(new[k] == utf8(start)[k]);
        } else if k < s + m {
            assert(new[k] == utf8(middle)[k - s]);
            assert(utf8(middle) == head + digits + quote);
            if k - s < 8 {
                assert(utf8(middle)[k - s] == head[k - s]);
            } else if k - s < 8 + digits.len() {
                assert(utf8(middle)[k - s] == digits[k - s - 8]);
            } else {
                assert(utf8(middle)[k - s] == quote[0]);
            }
        } else {
            assert(new[k] == end[k - s - m]);
        }
    }
    assert(new[0] == utf8(start)[0]);
}

/// A new tag of a column in a document without one, between `front` and `back`, is found there.
proof fn lemma_new_column_there(
    xml: Seq<u8>,
    at: int,
    front: Seq<u8>,
    back: Seq<u8>,
    number: nat,
    style: u32,
)
    requires
        0 <= at <= xml.len(),
        find(xml, utf8(column_tag(decimal(number)))) is None,
        front.len() == 0 || front[0] == 60,
        back.len() == 0 || back.last() == 62,
        forall|q: int|
            0 <= q < front.len() && #[trigger] front[q] == 60 ==> q + 4 < front.len() && front[q + 4]
                != 32,
    ensures
        ({
            let tag = utf8(
                column_tag(decimal(number)) + (" style=\""@ + decimal(style as nat) + "\"/>"@),
            );
            let whole = insert(xml, at, front + tag + back);
            &&& find(whole, utf8(column_tag(decimal(number)))) == Some(at + front.len())
            &&& tag_at(whole, at + front.len()) == tag
            &&& tag_stop(whole, at + front.len()) == at + front.len() + tag.len()
        }),
{
    let tag = utf8(
        column_tag(decimal(number)) + (" style=\""@ + decimal(style as nat) + "\"/>"@),
    );
    let new = front + tag + back;
    let whole = insert(xml, at, new);
    let start = at + front.len();
    lemma_new_column(number, style);
    assert(new.take(front.len() as int) =~= front);
    assert(new[0] == 60 && new.last() == 62);
    assert(whole.subrange(start, start + tag.len()) =~= tag);
    let head = utf8(column_tag(decimal(number)));
    assert(whole.subrange(start, start + head.len()) =~= tag.subrange(0, head.len() as int));
    lemma_column_found(xml, at, front, new, number);
    lemma_tag_placed(whole, start, tag);
}

/// The bytes around a new tag of a column.
proof fn lemma_list_of_columns()
    ensures
        utf8("<cols>"@).len() == 6,
        utf8("<cols>"@)[0] == 60,
        utf8("<cols>"@)[4] != 32,
        forall|k: int| 0 < k < 6 ==> #[trigger] utf8("<cols>"@)[k] != 60,
        utf8("</cols>"@).len() == 7,
        utf8("</cols>"@).last() == 62,
{
    reveal_strlit("<cols>");
    reveal_strlit("</cols>");
    lemma_utf8_ascii("<cols>"@);
    lemma_utf8_ascii("</cols>"@);
    assert forall|k: int| 0 < k < 6 implies #[trigger] utf8("<cols>"@)[k] != 60 by {
        assert(utf8("<cols>"@)[k] == "<cols>"@[k] as u8);
    }
    assert(utf8("<cols>"@)[0] == "<cols>"@[0] as u8);
    assert(utf8("<cols>"@)[4] == "<cols>"@[4] as u8);
    assert(utf8("</cols>"@)[6] == "</cols>"@[6] as u8);
}

/// Where the tag of a column that was given a style stands, and what it is.
#[verifier::spinoff_prover]
#[verifier::rlimit(60)]
proof fn lemma_column_painted(sheet: SheetView, column: u32, style: u32)
    requires
        column_painted(sheet, column, style) matches Some(outcome) && outcome.result is Ok,
    ensures
        ({
            let xml = column_painted(sheet, column, style)->0.sheet.xml;
            let start = utf8(column_tag(decimal((column + 1) as nat)));
            let at = find(xml, start)->0;
            &&& find(xml, start) is Some
            &&& is_ended(tag_at(xml, at))
            &&& exists|tag: Seq<u8>|
                #[trigger] tag_with_attribute(tag, " style=\""@, decimal(style as nat)) == Some(
                    tag_at(xml, at),
                )
        }),
{
    let xml = sheet.xml;
    let number = (column + 1) as nat;
    let value = decimal(style as nat);
    let start = utf8(column_tag(decimal(number)));
    let none = Seq::<u8>::empty();
    let tag = utf8(column_tag(decimal(number)) + (" style=\""@ + value + "\"/>"@));
    lemma_bracket();
    lemma_column_tag(number);
    lemma_find_from(xml, start, 0);
    match find(xml, start) {
        Some(at) => {
            let old = tag_at(xml, at);
            lemma_first_end(xml, at);
            let stop = tag_stop(xml, at);
            lemma_old_column(xml, at, number);
            lemma_column_styled(old, number, style);
            let set = tag_with_attribute(old, " style=\""@, value)->0;
            lemma_column_there(xml, at, stop, set, number);
        },
        None => {
            lemma_new_column(number, style);
            lemma_list_of_columns();
            lemma_find_from(xml, utf8("<cols"@), 0);
            lemma_find_from(xml, utf8("<sheetData"@), 0);
            match find(xml, utf8("<cols"@)) {
                Some(cols) => {
                    lemma_first_end(xml, cols);
                    let at = find_from(xml, utf8(">"@), cols)->0 + 1;
                    assert(none + tag + none =~= tag);
                    lemma_new_column_there(xml, at, none, none, number, style);
                },
                None => {
                    let at = find(xml, utf8("<sheetData"@))->0;
                    lemma_utf8_concat("<cols>"@, column_tag(decimal(number)) + (" style=\""@ + value
                        + "\"/>"@));
                    lemma_utf8_concat(
                        "<cols>"@ + (column_tag(decimal(number)) + (" style=\""@ + value + "\"/>"@)),
                        "</cols>"@,
                    );
                    lemma_new_column_there(
                        xml,
                        at,
                        utf8("<cols>"@),
                        utf8("</cols>"@),
                        number,
                        style,
                    );
                },
            }
        },
    }
}

/// The tag of a column that is there.
proof fn lemma_old_column(xml: Seq<u8>, at: int, number: nat)
    requires
        0 <= at,
        occurs_at(xml, utf8(column_tag(decimal(number))), at),
        is_ended(tag_at(xml, at)),
    ensures
        is_column(tag_at(xml, at), number),
        at < tag_stop(xml, at) <= xml.len(),
        tag_stop(xml, at) >= at + utf8(column_tag(decimal(number))).len(),
{
    let start = utf8(column_tag(decimal(number)));
    let tag = tag_at(xml, at);
    lemma_bracket();
    lemma_column_tag(number);
    lemma_first_end(xml, at);
    crate::tags::lemma_tag_stop(xml, at);
    let stop = tag_stop(xml, at);
    assert(tag.last() == xml[stop - 1]);
    if stop < at + start.len() {
        lemma_byte_at(xml, start, at, stop - 1 - at);
        assert(start[stop - 1 - at] != 62);
    }
    assert(tag.subrange(0, start.len() as int) =~= xml.subrange(at, at + start.len()));
    assert forall|k: int| 0 <= k < tag.len() - 1 implies #[trigger] tag[k] != 62 by {
        assert(tag[k] == xml[at + k]);
    }
}

/// The style that a column was given is the one that is read back.
pub proof fn law_column_style_read_back(sheet: SheetView, column: u32, style: u32)
    ensures
        column_painted(sheet, column, style) matches Some(outcome) ==> (outcome.result is Ok
            ==> column_style(outcome.sheet.xml, column) == Ok::<Option<u32>, ErrorView>(Some(style))),
{
    if let Some(outcome) = column_painted(sheet, column, style) {
        if outcome.result is Ok {
            let xml = outcome.sheet.xml;
            let at = find(xml, utf8(column_tag(decimal((column + 1) as nat))))->0;
            lemma_column_painted(sheet, column, style);
            let tag = choose|tag: Seq<u8>|
                #[trigger] tag_with_attribute(tag, " style=\""@, decimal(style as nat)) == Some(
                    tag_at(xml, at),
                );
            lemma_style_name();
            lemma_digits(style as nat);
            law_attribute_read_back(tag, " style=\""@, decimal(style as nat));
        }
    }
}

/// Giving a column a style changes the tag of the column, or adds one, and leaves the rest of the sheet
/// as it was.
pub proof fn law_column_leaves_rest(sheet: SheetView, column: u32, style: u32)
    ensures
        column_painted(sheet, column, style) matches Some(outcome) ==> {
            &&& outcome.sheet.last_row == sheet.last_row
            &&& outcome.result is Err ==> outcome.sheet == sheet
            &&& outcome.result is Ok ==> exists|from: int, to: int, new: Seq<u8>|
                0 <= from <= to <= sheet.xml.len() && outcome.sheet.xml == #[trigger] replace(
                    sheet.xml,
                    from,
                    to,
                    new,
                ) && (from == to || (find(
                    sheet.xml,
                    utf8(column_tag(decimal((column + 1) as nat))),
                ) == Some(from) && to == tag_stop(sheet.xml, from)))
        },
{
    let xml = sheet.xml;
    lemma_bracket();
    lemma_find_from(xml, utf8(column_tag(decimal((column + 1) as nat))), 0);
    lemma_find_from(xml, utf8("<cols"@), 0);
    lemma_find_from(xml, utf8("<sheetData"@), 0);
    if let Some(at) = find(xml, utf8(column_tag(decimal((column + 1) as nat)))) {
        crate::tags::lemma_tag_stop(xml, at);
    } else if let Some(cols) = find(xml, utf8("<cols"@)) {
        lemma_first_end(xml, cols);
    }
}

} // verus!
