//! What is written for a cell, a font, a fill, a number format and a style.

use vstd::prelude::*;
use crate::coord::is_cell_name;
use crate::laws::numerals::{is_power, is_sign, law_number, law_number_shape, power_text};
use crate::laws::pieces::law_plain_is_not_escaped;
use crate::laws::shapes::lemma_cell_name_chars;
use crate::sheet::written_cell;
use crate::text::{all_digits, is_digit, is_number, lemma_utf8_concat, upper, uppercase, utf8};
use crate::xml::{escaped, escaped_char, written_attributes, written_element};

verus! {

// ---- text in elements ---------------------------------------------------------------------

/// Each character that means something in XML is written as its entity, and any other as it is.
pub proof fn law_escaped(c: char)
    ensures
        c == '<' ==> escaped(seq![c]) == "&lt;"@,
        c == '>' ==> escaped(seq![c]) == "&gt;"@,
        c == '&' ==> escaped(seq![c]) == "&amp;"@,
        c == '\'' ==> escaped(seq![c]) == "&apos;"@,
        c == '"' ==> escaped(seq![c]) == "&quot;"@,
        !seq!['<', '>', '&', '\'', '"'].contains(c) ==> escaped(seq![c]) == seq![c],
        escaped(""@) == ""@,
{
    reveal_strlit("");
    reveal_with_fuel(escaped, 2);
    let one = seq![c];
    let five = seq!['<', '>', '&', '\'', '"'];
    assert(one.drop_last() =~= Seq::<char>::empty());
    assert(escaped(one) =~= escaped_char(c));
    assert(five[0] == '<' && five[1] == '>' && five[2] == '&' && five[3] == '\'' && five[4] == '"');
    assert(""@ =~= Seq::<char>::empty());
}

/// A text is written piece by piece.
pub proof fn law_escaped_pieces(a: Seq<char>, b: Seq<char>)
    ensures
        escaped(a + b) == escaped(a) + escaped(b),
    decreases b.len(),
{
    if b.len() == 0 {
        assert(a + b =~= a);
        assert(escaped(a) + escaped(b) =~= escaped(a));
    } else {
        law_escaped_pieces(a, b.drop_last());
        assert((a + b).drop_last() =~= a + b.drop_last());
        assert((a + b).last() == b.last());
        assert(escaped(a + b) =~= escaped(a) + escaped(b));
    }
}

// ---- cells --------------------------------------------------------------------------------

/// An element without attributes around a text.
proof fn lemma_simple_element(name: Seq<char>, inner: Seq<char>)
    ensures
        written_element(name, Seq::empty(), utf8(inner)) == utf8(
            "<"@ + name + ">"@ + inner + ("</"@ + name + ">"@),
        ),
{
    let none: Seq<(Seq<char>, Seq<char>)> = Seq::empty();
    let open = "<"@ + name + written_attributes(none) + ">"@;
    let close = "</"@ + name + ">"@;
    assert(open =~= "<"@ + name + ">"@);
    lemma_utf8_concat(open, inner);
    lemma_utf8_concat(open + inner, close);
}

/// What opens the element of a cell.
proof fn lemma_cell_open(coord: Seq<char>)
    ensures
        "<"@ + "c"@ + written_attributes(seq![("r"@, coord)]) + ">"@ == "<c r=\""@ + escaped(coord)
            + "\">"@,
        "<"@ + "c"@ + written_attributes(seq![("r"@, coord), ("t"@, "inlineStr"@)]) + ">"@
            == "<c r=\""@ + escaped(coord) + "\" t=\"inlineStr\">"@,
        "</"@ + "c"@ + ">"@ == "</c>"@,
{
    reveal_strlit("<");
    reveal_strlit("c");
    reveal_strlit(" ");
    reveal_strlit("r");
    reveal_strlit("t");
    reveal_strlit("=\"");
    reveal_strlit("\"");
    reveal_strlit(">");
    reveal_strlit("</");
    reveal_strlit("</c>");
    reveal_strlit("<c r=\"");
    reveal_strlit("\">");
    reveal_strlit("inlineStr");
    reveal_strlit("\" t=\"inlineStr\">");
    law_plain_is_not_escaped("inlineStr"@);
    reveal_with_fuel(written_attributes, 3);
    let one = seq![("r"@, coord)];
    let two = seq![("r"@, coord), ("t"@, "inlineStr"@)];
    assert(one.drop_last() =~= Seq::empty());
    assert(two.drop_last() =~= one);
    assert("<"@ + "c"@ + written_attributes(one) + ">"@ =~= "<c r=\""@ + escaped(coord)
        + "\">"@);
    assert("<"@ + "c"@ + written_attributes(two) + ">"@ =~= "<c r=\""@ + escaped(coord)
        + "\" t=\"inlineStr\">"@);
    assert("</"@ + "c"@ + ">"@ =~= "</c>"@);
}

/// Whatever a cell is called, a value with an equals sign in front is written as a formula without the sign, a number as a value,
/// and anything else as a text.
pub proof fn law_any_cell_written(name: Seq<char>, value: Seq<char>)
    ensures
        written_cell(name, "="@ + value) == utf8(
            "<c r=\""@ + escaped(name) + "\"><f>"@ + escaped(value) + "</f></c>"@,
        ),
        is_number(value) ==> written_cell(name, value) == utf8(
            "<c r=\""@ + escaped(name) + "\"><v>"@ + escaped(value) + "</v></c>"@,
        ),
        !is_number(value) && (value.len() == 0 || value[0] != '=') ==> written_cell(name, value)
            == utf8(
            "<c r=\""@ + escaped(name) + "\" t=\"inlineStr\"><is><t>"@ + escaped(value)
                + "</t></is></c>"@,
        ),
{
    let formula = "="@ + value;
    reveal_strlit("=");
    assert(formula.skip(1) =~= value);
    assert(formula[0] == '=');
    lemma_cell_open(name);
    lemma_simple_element("f"@, escaped(value));
    lemma_simple_element("v"@, escaped(value));
    lemma_simple_element("t"@, escaped(value));
    let text = "<"@ + "t"@ + ">"@ + escaped(value) + ("</"@ + "t"@ + ">"@);
    lemma_simple_element("is"@, text);
    lemma_cell_texts(escaped(name), escaped(value));
    let f = "<"@ + "f"@ + ">"@ + escaped(value) + ("</"@ + "f"@ + ">"@);
    let v = "<"@ + "v"@ + ">"@ + escaped(value) + ("</"@ + "v"@ + ">"@);
    let is = "<"@ + "is"@ + ">"@ + text + ("</"@ + "is"@ + ">"@);
    let open = "<c r=\""@ + escaped(name) + "\">"@;
    let typed = "<c r=\""@ + escaped(name) + "\" t=\"inlineStr\">"@;
    lemma_utf8_concat(open, f);
    lemma_utf8_concat(open + f, "</c>"@);
    lemma_utf8_concat(open, v);
    lemma_utf8_concat(open + v, "</c>"@);
    lemma_utf8_concat(typed, is);
    lemma_utf8_concat(typed + is, "</c>"@);
    if is_number(value) {
        lemma_number_start(value);
    }
}

/// A value with an equals sign in front is written as a formula without the sign, a number as a value,
/// and anything else as a text.
pub proof fn law_cell_written(coord: Seq<char>, value: Seq<char>)
    requires
        is_cell_name(coord),
    ensures
        written_cell(coord, "="@ + value) == utf8(
            "<c r=\""@ + coord + "\"><f>"@ + escaped(value) + "</f></c>"@,
        ),
        is_number(value) ==> written_cell(coord, value) == utf8(
            "<c r=\""@ + coord + "\"><v>"@ + escaped(value) + "</v></c>"@,
        ),
        !is_number(value) && (value.len() == 0 || value[0] != '=') ==> written_cell(coord, value)
            == utf8(
            "<c r=\""@ + coord + "\" t=\"inlineStr\"><is><t>"@ + escaped(value)
                + "</t></is></c>"@,
        ),
{
    law_any_cell_written(coord, value);
    lemma_cell_name_chars(coord);
    law_plain_is_not_escaped(coord);
}

/// A number does not start with an equals sign.
proof fn lemma_number_start(value: Seq<char>)
    requires
        is_number(value),
    ensures
        value.len() > 0,
        value[0] != '=',
{
    reveal_strlit("");
    reveal_strlit("+");
    reveal_strlit("-");
    reveal_strlit(".");
    reveal_strlit("INF");
    reveal_strlit("INFINITY");
    reveal_strlit("NAN");
    let (sign, a, point, b, e) = law_number_shape(value);
    if sign.len() > 0 {
        assert(value[0] == sign[0]);
    } else if a.len() > 0 {
        assert(value[0] == a[0]);
        assert(uppercase(a).len() == a.len());
        if all_digits(a) {
            assert(is_digit(a[0]));
        } else {
            assert(uppercase(a)[0] == upper(a[0]));
        }
    } else {
        assert(uppercase(a).len() == 0);
        assert(value[0] == '.');
    }
}

/// The texts of cells, piece by piece.
proof fn lemma_cell_texts(coord: Seq<char>, inner: Seq<char>)
    ensures
        ({
            let open = "<c r=\""@ + coord + "\">"@;
            let typed = "<c r=\""@ + coord + "\" t=\"inlineStr\">"@;
            let f = "<"@ + "f"@ + ">"@ + inner + ("</"@ + "f"@ + ">"@);
            let v = "<"@ + "v"@ + ">"@ + inner + ("</"@ + "v"@ + ">"@);
            let t = "<"@ + "t"@ + ">"@ + inner + ("</"@ + "t"@ + ">"@);
            let is = "<"@ + "is"@ + ">"@ + t + ("</"@ + "is"@ + ">"@);
            &&& open + f + "</c>"@ == "<c r=\""@ + coord + "\"><f>"@ + inner + "</f></c>"@
            &&& open + v + "</c>"@ == "<c r=\""@ + coord + "\"><v>"@ + inner + "</v></c>"@
            &&& typed + is + "</c>"@ == "<c r=\""@ + coord + "\" t=\"inlineStr\"><is><t>"@ + inner
                + "</t></is></c>"@
        }),
{
    reveal_strlit("<c r=\"");
    reveal_strlit("\">");
    reveal_strlit("\" t=\"inlineStr\">");
    reveal_strlit("<");
    reveal_strlit("f");
    reveal_strlit("v");
    reveal_strlit("t");
    reveal_strlit("is");
    reveal_strlit(">");
    reveal_strlit("</");
    reveal_strlit("</c>");
    reveal_strlit("\"><f>");
    reveal_strlit("</f></c>");
    reveal_strlit("\"><v>");
    reveal_strlit("</v></c>");
    reveal_strlit("\" t=\"inlineStr\"><is><t>");
    reveal_strlit("</t></is></c>");
    let open = "<c r=\""@ + coord + "\">"@;
    let typed = "<c r=\""@ + coord + "\" t=\"inlineStr\">"@;
    let f = "<"@ + "f"@ + ">"@ + inner + ("</"@ + "f"@ + ">"@);
    let v = "<"@ + "v"@ + ">"@ + inner + ("</"@ + "v"@ + ">"@);
    let t = "<"@ + "t"@ + ">"@ + inner + ("</"@ + "t"@ + ">"@);
    let is = "<"@ + "is"@ + ">"@ + t + ("</"@ + "is"@ + ">"@);
    assert(open + f + "</c>"@ =~= "<c r=\""@ + coord + "\"><f>"@ + inner + "</f></c>"@);
    assert(open + v + "</c>"@ =~= "<c r=\""@ + coord + "\"><v>"@ + inner + "</v></c>"@);
    assert(typed + is + "</c>"@ =~= "<c r=\""@ + coord + "\" t=\"inlineStr\"><is><t>"@ + inner
        + "</t></is></c>"@);
}

/// Digits, a point and digits, with or without a sign in front and a power of ten behind, are written
/// as a value, however many digits there are; and so are digits without a point.
pub proof fn law_number_written(
    coord: Seq<char>,
    sign: Seq<char>,
    a: Seq<char>,
    b: Seq<char>,
    e: Seq<char>,
)
    requires
        is_cell_name(coord),
        is_sign(sign),
        is_power(e),
        all_digits(a),
        all_digits(b),
    ensures
        written_cell(coord, sign + a + "."@ + b + e) == utf8(
            "<c r=\""@ + coord + "\"><v>"@ + (sign + a + "."@ + b + e) + "</v></c>"@,
        ),
        written_cell(coord, sign + a + e) == utf8(
            "<c r=\""@ + coord + "\"><v>"@ + (sign + a + e) + "</v></c>"@,
        ),
{
    let long = sign + a + "."@ + b + e;
    let short = sign + a + e;
    law_number(sign, a, b, e);
    law_cell_written(coord, long);
    law_cell_written(coord, short);
    lemma_plain(sign, a, b, e);
    law_plain_is_not_escaped(long);
    law_plain_is_not_escaped(short);
}

/// A number holds no character that means something in XML.
proof fn lemma_plain(sign: Seq<char>, a: Seq<char>, b: Seq<char>, e: Seq<char>)
    requires
        is_sign(sign),
        is_power(e),
        all_digits(a),
        all_digits(b),
    ensures
        forall|i: int|
            0 <= i < (sign + a + "."@ + b + e).len() ==> is_plain_char(
                #[trigger] (sign + a + "."@ + b + e)[i],
            ),
        forall|i: int|
            0 <= i < (sign + a + e).len() ==> is_plain_char(#[trigger] (sign + a + e)[i]),
{
    reveal_strlit("");
    reveal_strlit("+");
    reveal_strlit("-");
    reveal_strlit(".");
    reveal_strlit("e");
    reveal_strlit("E");
    let long = sign + a + "."@ + b + e;
    let short = sign + a + e;
    assert forall|i: int| 0 <= i < e.len() implies is_plain_char(#[trigger] e[i]) by {
        let (letter, s, digits) = choose|letter: Seq<char>, s: Seq<char>, digits: Seq<char>|
            (letter == "e"@ || letter == "E"@) && is_sign(s) && all_digits(digits) && e
                == #[trigger] power_text(letter, s, digits);
        if i >= 1 + s.len() {
            assert(e[i] == digits[i - 1 - s.len()]);
            assert(is_digit(digits[i - 1 - s.len()]));
        }
    }
    let n = sign.len() as int;
    let m = n + a.len();
    assert forall|i: int| 0 <= i < short.len() implies is_plain_char(#[trigger] short[i]) by {
        if n <= i < m {
            assert(is_digit(a[i - n]));
        } else if i >= m {
            assert(short[i] == e[i - m]);
        }
    }
    assert forall|i: int| 0 <= i < long.len() implies is_plain_char(#[trigger] long[i]) by {
        if n <= i < m {
            assert(is_digit(a[i - n]));
        } else if m < i < m + 1 + b.len() {
            assert(is_digit(b[i - m - 1]));
        } else if i >= m + 1 + b.len() {
            assert(long[i] == e[i - m - 1 - b.len()]);
        }
    }
}

/// A character that is written as it is.
pub open spec fn is_plain_char(c: char) -> bool {
    c != '<' && c != '>' && c != '&' && c != '\'' && c != '"'
}

} // verus!
