//! The shape of the cells and rows that are written.

use vstd::prelude::*;
use vstd::utf8::is_ascii_chars;
use crate::bytes::{find, find_from, lemma_find_from, lemma_find_from_is, occurs_at};
use crate::coord::is_cell_name;
use crate::laws::pieces::{
    law_escaped_is_plain, law_plain_is_not_escaped, lemma_byte_at, lemma_no_byte, tag_like,
};
use crate::laws::tidy::{
    are_ends, ends_from, is_element, lemma_find_pieces, lemma_first_end_is, lemma_tag_in_front,
    lemma_tidy_join, tidy,
};
use crate::sheet::{is_formula, leading_column, lemma_opens, lemma_quote, tag_column, written_cell};
use crate::tags::{is_closed, refers_to, tag_at, tag_stop};
use crate::text::{digit_start, is_digit, is_letter, is_number, lemma_utf8_ascii, text_of, utf8};
use crate::xml::{escaped, written_attributes, written_element};

verus! {

// ---- the tags in a cell -------------------------------------------------------------------

/// No `<` in `x` starts a cell or a row, or ends a cell, a row or the data of a sheet.
spec fn clean(x: Seq<u8>) -> bool {
    forall|i: int| 0 <= i < x.len() && #[trigger] x[i] == 60 ==> clean_at(x, i)
}

/// The `<` at `i` starts or ends nothing but what stands in a cell.
spec fn clean_at(x: Seq<u8>, i: int) -> bool {
    &&& i + 2 < x.len()
    &&& x[i + 1] != 99
    &&& x[i + 1] != 114
    &&& x[i + 1] == 47 ==> x[i + 2] != 99 && x[i + 2] != 114 && x[i + 2] != 115
}

/// Two clean pieces make a clean one.
proof fn lemma_clean_concat(a: Seq<u8>, b: Seq<u8>)
    requires
        clean(a),
        clean(b),
    ensures
        clean(a + b),
{
    let x = a + b;
    assert forall|i: int| 0 <= i < x.len() && #[trigger] x[i] == 60 implies clean_at(x, i) by {
        if i < a.len() {
            assert(a[i] == 60);
            assert(clean_at(a, i));
        } else {
            assert(b[i - a.len()] == 60);
            assert(clean_at(b, i - a.len()));
        }
    }
}

/// A name of small letters.
spec fn is_name(name: Seq<char>) -> bool {
    name.len() > 0 && forall|i: int| 0 <= i < name.len() ==> 'a' <= #[trigger] name[i] <= 'z'
}

/// An element inside a cell is clean.
proof fn lemma_element_clean(name: Seq<char>, inner: Seq<u8>)
    requires
        is_name(name),
        name[0] != 'c',
        name[0] != 'r',
        name[0] != 's',
        clean(inner),
    ensures
        clean(written_element(name, Seq::empty(), inner)),
{
    reveal_strlit("<");
    reveal_strlit(">");
    reveal_strlit("</");
    let none: Seq<(Seq<char>, Seq<char>)> = Seq::empty();
    let open = "<"@ + name + written_attributes(none) + ">"@;
    let close = "</"@ + name + ">"@;
    assert(open =~= "<"@ + name + ">"@);
    assert(is_ascii_chars(open)) by {
        assert forall|i: int| 0 <= i < open.len() implies '\0' <= #[trigger] open[i] <= '\u{7f}' by {
            if 0 < i < open.len() - 1 {
                assert(open[i] == name[i - 1]);
            }
        }
    }
    assert(is_ascii_chars(close)) by {
        assert forall|i: int| 0 <= i < close.len() implies '\0' <= #[trigger] close[i] <= '\u{7f}' by {
            if 1 < i < close.len() - 1 {
                assert(close[i] == name[i - 2]);
            }
        }
    }
    lemma_utf8_ascii(open);
    lemma_utf8_ascii(close);
    assert(clean(utf8(open))) by {
        assert forall|i: int| 0 <= i < utf8(open).len() && #[trigger] utf8(open)[i] == 60 implies clean_at(
            utf8(open),
            i,
        ) by {
            assert(utf8(open)[i] == open[i] as u8);
            if 0 < i < open.len() - 1 {
                assert(open[i] == name[i - 1]);
            }
            assert(i == 0);
            assert(open[1] == name[0]);
            assert(utf8(open)[1] == open[1] as u8);
        }
    }
    assert(clean(utf8(close))) by {
        assert forall|i: int| 0 <= i < utf8(close).len() && #[trigger] utf8(close)[i] == 60 implies clean_at(
            utf8(close),
            i,
        ) by {
            assert(utf8(close)[i] == close[i] as u8);
            if 1 < i < close.len() - 1 {
                assert(close[i] == name[i - 2]);
            }
            assert(i == 0);
            assert(close[1] == '/');
            assert(close[2] == name[0]);
            assert(utf8(close)[1] == close[1] as u8);
            assert(utf8(close)[2] == close[2] as u8);
        }
    }
    lemma_clean_concat(utf8(open), inner);
    lemma_clean_concat(utf8(open) + inner, utf8(close));
}

/// Escaped text is clean.
proof fn lemma_escaped_clean(text: Seq<char>)
    ensures
        clean(utf8(escaped(text))),
{
    law_escaped_is_plain(text);
    lemma_no_byte(escaped(text), '<');
}

/// What stands between the tags of a cell with the value `value`.
pub open spec fn cell_inner(value: Seq<char>) -> Seq<u8> {
    if is_formula(value) {
        written_element("f"@, Seq::empty(), utf8(escaped(value.skip(1))))
    } else if is_number(value) {
        written_element("v"@, Seq::empty(), utf8(escaped(value)))
    } else {
        written_element(
            "is"@,
            Seq::empty(),
            written_element("t"@, Seq::empty(), utf8(escaped(value))),
        )
    }
}

/// What stands between the tags of a cell is clean.
proof fn lemma_cell_inner(value: Seq<char>)
    ensures
        clean(cell_inner(value)),
{
    reveal_strlit("f");
    reveal_strlit("v");
    reveal_strlit("is");
    reveal_strlit("t");
    lemma_escaped_clean(value);
    if is_formula(value) {
        lemma_escaped_clean(value.skip(1));
        lemma_element_clean("f"@, utf8(escaped(value.skip(1))));
    } else if is_number(value) {
        lemma_element_clean("v"@, utf8(escaped(value)));
    } else {
        lemma_element_clean("t"@, utf8(escaped(value)));
        lemma_element_clean(
            "is"@,
            written_element("t"@, Seq::empty(), utf8(escaped(value))),
        );
    }
}

/// The tag that opens a cell.
pub open spec fn cell_head(coord: Seq<char>, value: Seq<char>) -> Seq<char> {
    "<c r=\""@ + coord + (if is_formula(value) || is_number(value) {
        "\">"@
    } else {
        "\" t=\"inlineStr\">"@
    })
}

/// The characters of a cell name are letters and digits.
pub proof fn lemma_cell_name_chars(coord: Seq<char>)
    requires
        is_cell_name(coord),
    ensures
        forall|i: int|
            0 <= i < coord.len() ==> is_letter(#[trigger] coord[i]) || is_digit(coord[i]),
{
    let row = digit_start(coord, 0);
    lemma_digit_start_bounds(coord, 0);
    assert forall|i: int| 0 <= i < coord.len() implies is_letter(#[trigger] coord[i]) || is_digit(
        coord[i],
    ) by {
        if i < row {
            assert(coord.take(row)[i] == coord[i]);
        } else {
            assert(coord.skip(row)[i - row] == coord[i]);
        }
    }
}

/// The first digit is found in the text or at its end.
proof fn lemma_digit_start_bounds(text: Seq<char>, i: int)
    requires
        0 <= i <= text.len(),
    ensures
        i <= digit_start(text, i) <= text.len(),
    decreases text.len() - i,
{
    if i < text.len() && !is_digit(text[i]) {
        lemma_digit_start_bounds(text, i + 1);
    }
}

/// A cell is its opening tag, what stands between its tags, and its closing tag.
pub proof fn lemma_cell_shape(coord: Seq<char>, value: Seq<char>)
    requires
        is_cell_name(coord),
    ensures
        written_cell(coord, value) == utf8(cell_head(coord, value)) + cell_inner(value) + utf8(
            "</c>"@,
        ),
{
    reveal_strlit("<");
    reveal_strlit("c");
    reveal_strlit(" ");
    reveal_strlit("r");
    reveal_strlit("t");
    reveal_strlit("=\"");
    reveal_strlit("\"");
    reveal_strlit(">");
    reveal_strlit("</");
    reveal_strlit("</c>");
    reveal_strlit("<c r=\"");
    reveal_strlit("\">");
    reveal_strlit("inlineStr");
    reveal_strlit("\" t=\"inlineStr\">");
    lemma_cell_name_chars(coord);
    law_plain_is_not_escaped(coord);
    law_plain_is_not_escaped("inlineStr"@);
    reveal_with_fuel(written_attributes, 3);
    let one = seq![("r"@, coord)];
    let two = seq![("r"@, coord), ("t"@, "inlineStr"@)];
    assert(one.drop_last() =~= Seq::empty());
    assert(two.drop_last() =~= one);
    assert("</"@ + "c"@ + ">"@ =~= "</c>"@);
    assert(written_attributes(one) =~= " r=\""@ + coord + "\""@) by {
        reveal_strlit(" r=\"");
    }
    if is_formula(value) || is_number(value) {
        assert("<"@ + "c"@ + written_attributes(one) + ">"@ =~= cell_head(coord, value)) by {
            reveal_strlit(" r=\"");
        }
    } else {
        assert("<"@ + "c"@ + written_attributes(two) + ">"@ =~= cell_head(coord, value)) by {
            reveal_strlit(" r=\"");
        }
    }
}

// ---- tags that end ------------------------------------------------------------------------

/// A tag with its only `<` at its start and its only `>` at its end is tidy.
pub proof fn lemma_tag_tidy(t: Seq<u8>)
    requires
        t.len() >= 2,
        t[0] == 60,
        t.last() == 62,
        forall|i: int| 0 < i < t.len() ==> #[trigger] t[i] != 60,
        forall|i: int| 0 <= i < t.len() - 1 ==> #[trigger] t[i] != 62,
    ensures
        tidy(t),
        tag_stop(t, 0) == t.len(),
        tag_at(t, 0) == t,
{
    lemma_first_end_is(t, 0, t.len() - 1);
    assert(t.subrange(0, t.len() as int) =~= t);
    assert forall|p: int| 0 <= p < t.len() && #[trigger] t[p] == 60 implies ends_from(t, p) by {
        assert(p == 0);
    }
}

/// Text without `<` is tidy.
pub proof fn lemma_text_tidy(t: Seq<u8>)
    requires
        forall|i: int| 0 <= i < t.len() ==> #[trigger] t[i] != 60,
    ensures
        tidy(t),
{
}

/// A text whose only `<` is its first character and whose only `>` is its last one, in bytes.
pub proof fn lemma_ascii_tag(text: Seq<char>)
    requires
        text.len() >= 2,
        is_ascii_chars(text),
        text[0] == '<',
        text.last() == '>',
        forall|i: int| 0 < i < text.len() ==> #[trigger] text[i] != '<',
        forall|i: int| 0 <= i < text.len() - 1 ==> #[trigger] text[i] != '>',
    ensures
        tidy(utf8(text)),
        utf8(text).len() == text.len(),
        tag_stop(utf8(text), 0) == text.len(),
        tag_at(utf8(text), 0) == utf8(text),
        utf8(text)[0] == 60,
        utf8(text).last() == 62,
        forall|i: int| 0 < i < text.len() ==> #[trigger] utf8(text)[i] != 60,
{
    lemma_utf8_ascii(text);
    let t = utf8(text);
    assert(t[0] == text[0] as u8);
    assert(t[t.len() - 1] == text[text.len() - 1] as u8);
    assert forall|i: int| 0 < i < t.len() implies #[trigger] t[i] != 60 by {
        assert(t[i] == text[i] as u8);
    }
    assert forall|i: int| 0 <= i < t.len() - 1 implies #[trigger] t[i] != 62 by {
        assert(t[i] == text[i] as u8);
    }
    lemma_tag_tidy(t);
}

/// An element without attributes around a tidy piece is tidy.
proof fn lemma_element_tidy(name: Seq<char>, inner: Seq<u8>)
    requires
        is_name(name),
        tidy(inner),
    ensures
        tidy(written_element(name, Seq::empty(), inner)),
{
    reveal_strlit("<");
    reveal_strlit(">");
    reveal_strlit("</");
    let none: Seq<(Seq<char>, Seq<char>)> = Seq::empty();
    let open = "<"@ + name + written_attributes(none) + ">"@;
    let close = "</"@ + name + ">"@;
    assert(open =~= "<"@ + name + ">"@);
    assert forall|i: int| 0 < i < open.len() - 1 implies 'a' <= #[trigger] open[i] <= 'z' by {
        assert(open[i] == name[i - 1]);
    }
    assert forall|i: int| 1 < i < close.len() - 1 implies 'a' <= #[trigger] close[i] <= 'z' by {
        assert(close[i] == name[i - 2]);
    }
    assert(close[1] == '/');
    lemma_ascii_tag(open);
    lemma_ascii_tag(close);
    lemma_tidy_join(utf8(open), inner);
    lemma_tidy_join(utf8(open) + inner, utf8(close));
}

/// What stands between the tags of a cell is tidy.
proof fn lemma_inner_tidy(value: Seq<char>)
    ensures
        tidy(cell_inner(value)),
{
    reveal_strlit("f");
    reveal_strlit("v");
    reveal_strlit("is");
    reveal_strlit("t");
    law_escaped_is_plain(value);
    lemma_no_byte(escaped(value), '<');
    lemma_text_tidy(utf8(escaped(value)));
    if is_formula(value) {
        law_escaped_is_plain(value.skip(1));
        lemma_no_byte(escaped(value.skip(1)), '<');
        lemma_text_tidy(utf8(escaped(value.skip(1))));
        lemma_element_tidy("f"@, utf8(escaped(value.skip(1))));
    } else if is_number(value) {
        lemma_element_tidy("v"@, utf8(escaped(value)));
    } else {
        lemma_element_tidy("t"@, utf8(escaped(value)));
        lemma_element_tidy(
            "is"@,
            written_element("t"@, Seq::empty(), utf8(escaped(value))),
        );
    }
}

/// The bytes of ` r="`.
pub proof fn lemma_reference()
    ensures
        utf8(" r=\""@) == seq![32u8, 114u8, 61u8, 34u8],
{
    reveal_strlit(" r=\"");
    lemma_utf8_ascii(" r=\""@);
    assert(utf8(" r=\""@) =~= seq![32u8, 114u8, 61u8, 34u8]);
}

/// A tag whose first attribute is `r` refers to its value, where that holds no quote.
pub proof fn lemma_refers(tag: Seq<u8>, value: Seq<char>, at: int)
    requires
        0 <= at,
        occurs_at(tag, utf8(" r=\""@), at),
        forall|i: int| 0 <= i < at ==> #[trigger] tag[i] != 32,
        occurs_at(tag, utf8(value), at + 4),
        at + 4 + utf8(value).len() < tag.len(),
        tag[at + 4 + utf8(value).len()] == 34,
        forall|i: int| 0 <= i < utf8(value).len() ==> #[trigger] utf8(value)[i] != 34,
    ensures
        refers_to(tag, value),
{
    let head = utf8(" r=\""@);
    let quote = utf8("\""@);
    let start = at + 4;
    let end = start + utf8(value).len();
    lemma_reference();
    lemma_quote();
    assert forall|p: int| 0 <= p < at implies !#[trigger] occurs_at(tag, head, p) by {
        if occurs_at(tag, head, p) {
            lemma_byte_at(tag, head, p, 0);
        }
    }
    lemma_find_from_is(tag, head, 0, at);
    assert(tag.subrange(end, end + 1) =~= quote);
    assert forall|p: int| start <= p < end implies !#[trigger] occurs_at(tag, quote, p) by {
        if occurs_at(tag, quote, p) {
            lemma_byte_at(tag, quote, p, 0);
            lemma_byte_at(tag, utf8(value), start, p - start);
        }
    }
    lemma_find_from_is(tag, quote, start, end);
}

/// The tags that cells, rows and the data of a sheet start and end with.
pub proof fn lemma_sheet_ends()
    ensures
        are_ends("<c "@, "</c>"@),
        are_ends("<row "@, "</row>"@),
        tag_like(utf8("</sheetData>"@)),
        utf8("</sheetData>"@).len() == 12,
        utf8("</sheetData>"@)[1] == 47,
        utf8("</sheetData>"@)[2] == 115,
        utf8("</sheetData>"@).last() == 62,
{
    lemma_opens();
    reveal_strlit("</sheetData>");
    lemma_utf8_ascii("</sheetData>"@);
    let data = utf8("</sheetData>"@);
    assert forall|i: int| 0 <= i < 12 implies #[trigger] data[i] == "</sheetData>"@[i] as u8 by {}
    assert(data[0] == "</sheetData>"@[0] as u8);
    assert(data[1] == "</sheetData>"@[1] as u8);
    assert(data[2] == "</sheetData>"@[2] as u8);
    assert(data[11] == "</sheetData>"@[11] as u8);
    assert(tag_like(utf8("<c "@)));
    assert(tag_like(utf8("</c>"@)));
    assert(tag_like(utf8("<row "@)));
    assert(tag_like(utf8("</row>"@)));
}

/// The tag of a written cell.
pub proof fn lemma_head(coord: Seq<char>, value: Seq<char>)
    requires
        is_cell_name(coord),
    ensures
        ({
            let head = utf8(cell_head(coord, value));
            &&& tidy(head)
            &&& head.len() >= 3
            &&& tag_at(head, 0) == head
            &&& head[0] == 60 && head[1] == 99 && head[2] == 32
            &&& forall|i: int| 0 < i < head.len() ==> #[trigger] head[i] != 60
            &&& refers_to(head, coord)
            &&& !is_closed(head)
            &&& text_of(utf8(coord)) is Some
        }),
{
    reveal_strlit("<c r=\"");
    reveal_strlit("\">");
    reveal_strlit("\" t=\"inlineStr\">");
    lemma_cell_name_chars(coord);
    let text = cell_head(coord, value);
    let c = coord.len() as int;
    assert forall|i: int| 6 <= i < 6 + c implies #[trigger] text[i] == coord[i - 6] by {}
    assert(is_ascii_chars(coord)) by {
        assert forall|i: int| 0 <= i < c implies '\0' <= #[trigger] coord[i] <= '\u{7f}' by {
            assert(is_letter(coord[i]) || is_digit(coord[i]));
        }
    }
    assert(is_ascii_chars(text)) by {
        assert forall|i: int| 0 <= i < text.len() implies '\0' <= #[trigger] text[i] <= '\u{7f}' by {
            if 6 <= i < 6 + c {
                assert(text[i] == coord[i - 6]);
                assert(is_letter(coord[i - 6]) || is_digit(coord[i - 6]));
            }
        }
    }
    assert forall|i: int| 0 < i < text.len() implies #[trigger] text[i] != '<' by {
        if 6 <= i < 6 + c {
            assert(is_letter(coord[i - 6]) || is_digit(coord[i - 6]));
        }
    }
    assert forall|i: int| 0 <= i < text.len() - 1 implies #[trigger] text[i] != '>' by {
        if 6 <= i < 6 + c {
            assert(is_letter(coord[i - 6]) || is_digit(coord[i - 6]));
        }
    }
    lemma_ascii_tag(text);
    lemma_utf8_ascii(text);
    lemma_utf8_ascii(coord);
    lemma_reference();
    let head = utf8(text);
    assert(head[0] == text[0] as u8 && head[1] == text[1] as u8 && head[2] == text[2] as u8);
    assert(head[3] == text[3] as u8 && head[4] == text[4] as u8 && head[5] == text[5] as u8);
    assert(head.subrange(2, 6) =~= utf8(" r=\""@));
    assert(head.subrange(6, 6 + c) =~= utf8(coord)) by {
        assert forall|i: int| 0 <= i < c implies head[6 + i] == #[trigger] utf8(coord)[i] by {
            assert(head[6 + i] == text[6 + i] as u8);
            assert(text[6 + i] == coord[i]);
        }
    }
    assert(head[6 + c] == text[6 + c] as u8);
    assert forall|i: int| 0 <= i < utf8(coord).len() implies #[trigger] utf8(coord)[i] != 34 by {
        assert(is_letter(coord[i]) || is_digit(coord[i]));
    }
    lemma_refers(head, coord, 2);
    assert(head[head.len() - 2] == text[text.len() - 2] as u8);
    vstd::utf8::encode_utf8_valid_utf8(coord);
    vstd::utf8::encode_utf8_decode_utf8(coord);
}

/// A needle whose first three bytes do not stand in clean text is not found in it.
proof fn lemma_not_in_clean(x: Seq<u8>, needle: Seq<u8>, i: int)
    requires
        clean(x),
        0 <= i,
        needle.len() >= 3,
        needle[0] == 60,
        needle[1] == 99 || needle[1] == 114 || (needle[1] == 47 && (needle[2] == 99 || needle[2]
            == 114 || needle[2] == 115)),
    ensures
        find_from(x, needle, i) is None,
{
    lemma_find_from(x, needle, i);
    if let Some(p) = find_from(x, needle, i) {
        lemma_byte_at(x, needle, p, 0);
        lemma_byte_at(x, needle, p, 1);
        lemma_byte_at(x, needle, p, 2);
        assert(clean_at(x, p));
    }
}

/// A needle is not found in a tag that starts otherwise.
pub proof fn lemma_not_in_tag(t: Seq<u8>, needle: Seq<u8>, i: int)
    requires
        needle.len() >= 3,
        needle[0] == 60,
        0 <= i,
        t.len() >= 3,
        forall|k: int| 0 < k < t.len() ==> #[trigger] t[k] != 60,
        i > 0 || t[1] != needle[1] || t[2] != needle[2],
    ensures
        find_from(t, needle, i) is None,
{
    lemma_find_from(t, needle, i);
    if let Some(p) = find_from(t, needle, i) {
        lemma_byte_at(t, needle, p, 0);
        lemma_byte_at(t, needle, p, 1);
        lemma_byte_at(t, needle, p, 2);
    }
}

/// A written cell is an element that refers to its name, and holds nothing of a row or of the end of
/// the data.
#[verifier::spinoff_prover]
#[verifier::rlimit(60)]
pub proof fn lemma_written_cell(coord: Seq<char>, value: Seq<char>)
    requires
        is_cell_name(coord),
    ensures
        ({
            let cell = written_cell(coord, value);
            &&& is_element(cell, "<c "@, "</c>"@, coord)
            &&& tag_column(tag_at(cell, 0)) == Some(leading_column(utf8(coord)))
            &&& find(cell, utf8("<row "@)) is None
            &&& find(cell, utf8("</row>"@)) is None
            &&& find(cell, utf8("</sheetData>"@)) is None
        }),
{
    let head = utf8(cell_head(coord, value));
    let inner = cell_inner(value);
    let close = utf8("</c>"@);
    let cell = written_cell(coord, value);
    lemma_cell_shape(coord, value);
    lemma_cell_inner(value);
    lemma_inner_tidy(value);
    lemma_head(coord, value);
    lemma_opens();
    lemma_sheet_ends();
    lemma_tag_tidy(close);
    lemma_tidy_join(inner, close);
    lemma_tidy_join(head, inner + close);
    assert(cell =~= head + (inner + close));
    lemma_tag_in_front(head, inner + close, 0);
    let open = utf8("<c "@);
    assert(cell.subrange(0, 3) =~= open);
    assert(close.subrange(0, 4) =~= close);
    // where the parts of a tag can stand
    lemma_find_pieces(head, inner + close, open, 1);
    lemma_find_pieces(inner, close, open, 0);
    lemma_not_in_tag(head, open, 1);
    lemma_not_in_clean(inner, open, 0);
    lemma_not_in_tag(close, open, 0);
    assert(head.len() == tag_stop(head, 0)) by {
        assert(tag_at(head, 0).len() == head.len());
    }
    lemma_find_pieces(head, inner + close, close, tag_stop(cell, 0));
    lemma_find_pieces(inner, close, close, 0);
    lemma_not_in_clean(inner, close, 0);
    lemma_find_from_is(close, close, 0, 0);
    lemma_find_from(head, close, head.len() as int);
    let row = utf8("<row "@);
    lemma_find_pieces(head, inner + close, row, 0);
    lemma_find_pieces(inner, close, row, 0);
    lemma_not_in_tag(head, row, 0);
    lemma_not_in_clean(inner, row, 0);
    lemma_not_in_tag(close, row, 0);
    let end = utf8("</row>"@);
    lemma_find_pieces(head, inner + close, end, 0);
    lemma_find_pieces(inner, close, end, 0);
    lemma_not_in_tag(head, end, 0);
    lemma_not_in_clean(inner, end, 0);
    lemma_not_in_tag(close, end, 0);
    let data = utf8("</sheetData>"@);
    lemma_find_pieces(head, inner + close, data, 0);
    lemma_find_pieces(inner, close, data, 0);
    lemma_not_in_tag(head, data, 0);
    lemma_not_in_clean(inner, data, 0);
    lemma_not_in_tag(close, data, 0);
}

/// The tag of a written cell has no style.
pub proof fn lemma_no_style(coord: Seq<char>, value: Seq<char>)
    requires
        is_cell_name(coord),
    ensures
        find(tag_at(written_cell(coord, value), 0), utf8(" s=\""@)) is None,
{
    let text = cell_head(coord, value);
    let tag = utf8(text);
    let style = utf8(" s=\""@);
    let c = coord.len() as int;
    reveal_strlit("<c r=\"");
    reveal_strlit("\">");
    reveal_strlit("\" t=\"inlineStr\">");
    reveal_strlit(" s=\"");
    lemma_utf8_ascii(" s=\""@);
    lemma_cell_name_chars(coord);
    lemma_cell_shape(coord, value);
    lemma_head(coord, value);
    lemma_tag_in_front(tag, cell_inner(value) + utf8("</c>"@), 0);
    assert(written_cell(coord, value) =~= tag + (cell_inner(value) + utf8("</c>"@)));
    assert(is_ascii_chars(text)) by {
        assert forall|i: int| 0 <= i < text.len() implies '\0' <= #[trigger] text[i] <= '\u{7f}' by {
            if 6 <= i < 6 + c {
                assert(text[i] == coord[i - 6]);
                assert(is_letter(coord[i - 6]) || is_digit(coord[i - 6]));
            }
        }
    }
    lemma_utf8_ascii(text);
    lemma_find_from(tag, style, 0);
    if let Some(p) = find(tag, style) {
        lemma_byte_at(tag, style, p, 0);
        lemma_byte_at(tag, style, p, 1);
        assert(style[0] == " s=\""@[0] as u8 && style[1] == " s=\""@[1] as u8);
        assert(tag[p] == text[p] as u8 && tag[p + 1] == text[p + 1] as u8);
        if 6 <= p < 6 + c {
            assert(text[p] == coord[p - 6]);
            assert(is_letter(coord[p - 6]) || is_digit(coord[p - 6]));
        }
    }
}

} // verus!
