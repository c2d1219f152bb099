//! Fonts, fills, number formats and styles in the lists of a style sheet, byte by byte.

use vstd::prelude::*;
use crate::bytes::{
    find, find_from, insert, lemma_find_from, lemma_find_from_is, occurs_at, replace,
};
use crate::error::ErrorView;
use crate::laws::marks::lemma_found_before;
use crate::laws::pieces::lemma_byte_at;
use crate::markup::count_bumped;
use crate::sheet::lemma_quote;
use crate::styles::{
    align_tag, fill_ensured, fitting_style, font_element, font_ensured, format_ensured, format_scan,
    format_tag, style_ensured, style_xf, styles_given, AlignView, StylesOutcome,
};
use crate::tags::lemma_bracket;
use crate::text::{decimal, lemma_utf8_ascii, u32_of_bytes, utf8};
use crate::xml::{cell_xfs, elements, listed, xml_events, TagView};

verus! {

// ---- lists with a count -------------------------------------------------------------------

/// A list of a document: its tag, which starts with `open` at `pos`, has a count from `start` up to
/// `stop`, and the list ends at `end`, where the first `close` stands.
pub open spec fn is_list(
    xml: Seq<u8>,
    open: Seq<char>,
    close: Seq<char>,
    pos: int,
    start: int,
    stop: int,
    end: int,
) -> bool {
    &&& find(xml, utf8(open)) == Some(pos)
    &&& find_from(xml, utf8("count=\""@), pos) == Some(start - utf8("count=\""@).len())
    &&& pos + utf8(open).len() <= start - utf8("count=\""@).len()
    &&& find_from(xml, utf8("\""@), start) == Some(stop)
    &&& find(xml, utf8(close)) == Some(end)
    &&& stop < end
}

/// A document with one more element at the end of a list, and a count that is one more.
pub open spec fn with_element(
    xml: Seq<u8>,
    start: int,
    stop: int,
    end: int,
    count: u32,
    element: Seq<char>,
) -> Seq<u8> {
    xml.take(start) + utf8(decimal((count + 1) as nat)) + xml.subrange(stop, end) + utf8(element)
        + xml.skip(end)
}

/// A count in front of the end of its list grows by one when an element is put there.
proof fn lemma_list_grows(
    xml: Seq<u8>,
    open: Seq<char>,
    close: Seq<char>,
    pos: int,
    start: int,
    stop: int,
    end: int,
    element: Seq<char>,
)
    requires
        is_list(xml, open, close, pos, start, stop, end),
        u32_of_bytes(xml.subrange(start, stop)) matches Some(count) && count < u32::MAX,
    ensures
        count_bumped(insert(xml, end, utf8(element)), open, "count=\""@) == Some(
            Ok::<Seq<u8>, ErrorView>(
                with_element(
                    xml,
                    start,
                    stop,
                    end,
                    u32_of_bytes(xml.subrange(start, stop))->0,
                    element,
                ),
            ),
        ),
{
    let attr = utf8("count=\""@);
    let quote = utf8("\""@);
    let new = utf8(element);
    let longer = insert(xml, end, new);
    let a = start - attr.len();
    lemma_quote();
    lemma_find_from(xml, utf8(open), 0);
    lemma_find_from(xml, attr, pos);
    lemma_find_from(xml, quote, start);
    lemma_find_from(xml, utf8(close), 0);
    lemma_found_before(xml, end, end, new, utf8(open), 0, pos);
    lemma_found_before(xml, end, end, new, attr, pos, a);
    lemma_found_before(xml, end, end, new, quote, start, stop);
    assert(longer.subrange(start, stop) =~= xml.subrange(start, stop));
    let count = u32_of_bytes(xml.subrange(start, stop))->0;
    assert(replace(longer, start, stop, utf8(decimal((count + 1) as nat))) =~= with_element(
        xml,
        start,
        stop,
        end,
        count,
        element,
    ));
}

// ---- fonts and fills ----------------------------------------------------------------------

/// The font with a name and a size, in each of the four ways of writing it.
pub open spec fn font_text(name: Seq<char>, size: Seq<char>, bold: bool, italic: bool) -> Seq<char> {
    match (bold, italic) {
        (false, false) => "<font><sz val=\""@ + size + ("\"/><name val=\""@ + name + "\"/></font>"@),
        (true, false) => "<font><b/><sz val=\""@ + size + ("\"/><name val=\""@ + name
            + "\"/></font>"@),
        (false, true) => "<font><i/><sz val=\""@ + size + ("\"/><name val=\""@ + name
            + "\"/></font>"@),
        (true, true) => "<font><b/><i/><sz val=\""@ + size + ("\"/><name val=\""@ + name
            + "\"/></font>"@),
    }
}

/// The font that is added is bold where bold is asked for and italic where italic is, with the size and
/// the name that were given. It stands at the end of the list of fonts, whose count is one more, and
/// its number is that of the fonts that were there.
pub proof fn law_font_added(
    styles: Seq<u8>,
    name: Seq<char>,
    size: Seq<char>,
    bold: bool,
    italic: bool,
    pos: int,
    start: int,
    stop: int,
    end: int,
)
    requires
        is_list(styles, "<fonts"@, "</fonts>"@, pos, start, stop, end),
        u32_of_bytes(styles.subrange(start, stop)) matches Some(count) && count < u32::MAX,
        listed(xml_events(styles), utf8("fonts"@), utf8("font"@), false, true).len() <= u32::MAX,
    ensures
        font_ensured(styles, name, size, bold, italic) matches Some(added) && {
            &&& added.result == Ok::<u32, ErrorView>(
                listed(xml_events(styles), utf8("fonts"@), utf8("font"@), false, true).len() as u32,
            )
            &&& added.styles == with_element(
                styles,
                start,
                stop,
                end,
                u32_of_bytes(styles.subrange(start, stop))->0,
                font_text(name, size, bold, italic),
            )
        },
{
    law_font_written(name, size, bold, italic);
    lemma_list_grows(
        styles,
        "<fonts"@,
        "</fonts>"@,
        pos,
        start,
        stop,
        end,
        font_element(name, size, bold, italic),
    );
}

/// A font is written with the bold mark exactly where it is bold, with the italic mark exactly where it
/// is italic, and with its size and its name.
pub proof fn law_font_written(name: Seq<char>, size: Seq<char>, bold: bool, italic: bool)
    ensures
        font_element(name, size, bold, italic) == font_text(name, size, bold, italic),
{
    reveal_strlit("<font>");
    reveal_strlit("<b/>");
    reveal_strlit("<i/>");
    reveal_strlit("");
    reveal_strlit("<sz val=\"");
    reveal_strlit("\"/><name val=\"");
    reveal_strlit("\"/></font>");
    reveal_strlit("<font><sz val=\"");
    reveal_strlit("<font><b/><sz val=\"");
    reveal_strlit("<font><i/><sz val=\"");
    reveal_strlit("<font><b/><i/><sz val=\"");
    assert(font_element(name, size, bold, italic) =~= font_text(name, size, bold, italic));
}

/// The fill that is added has the colour that was given. It stands at the end of the list of fills,
/// whose count is one more, and its number is that of the fills that were there.
pub proof fn law_fill_added(
    styles: Seq<u8>,
    rgb: Seq<char>,
    pos: int,
    start: int,
    stop: int,
    end: int,
)
    requires
        is_list(styles, "<fills"@, "</fills>"@, pos, start, stop, end),
        u32_of_bytes(styles.subrange(start, stop)) matches Some(count) && count < u32::MAX,
        listed(xml_events(styles), utf8("fills"@), utf8("fill"@), false, true).len() <= u32::MAX,
    ensures
        fill_ensured(styles, rgb) matches Some(added) && {
            &&& added.result == Ok::<u32, ErrorView>(
                listed(xml_events(styles), utf8("fills"@), utf8("fill"@), false, true).len() as u32,
            )
            &&& added.styles == with_element(
                styles,
                start,
                stop,
                end,
                u32_of_bytes(styles.subrange(start, stop))->0,
                "<fill><patternFill patternType=\"solid\"><fgColor rgb=\""@ + rgb
                    + "\"/><bgColor indexed=\"64\"/></patternFill></fill>"@,
            )
        },
{
    lemma_list_grows(
        styles,
        "<fills"@,
        "</fills>"@,
        pos,
        start,
        stop,
        end,
        "<fill><patternFill patternType=\"solid\"><fgColor rgb=\""@ + rgb
            + "\"/><bgColor indexed=\"64\"/></patternFill></fill>"@,
    );
}

// ---- number formats -----------------------------------------------------------------------

/// The tag of a number format: its number, and its code as it is.
pub open spec fn format_text(id: u32, code: Seq<char>) -> Seq<char> {
    "<numFmt numFmtId=\""@ + decimal(id as nat) + "\" formatCode=\""@ + code + "\"/>"@
}

/// The tag of a number format holds the number and the whole code.
proof fn lemma_format_text(id: u32, code: Seq<char>)
    ensures
        format_tag(id, code) == format_text(id, code),
{
    assert(format_tag(id, code) =~= format_text(id, code));
}

/// A number format that is not there is added with the code that was asked for, whole, and with the
/// number that is returned, which is larger than those of the formats that there are. It goes to the
/// end of the list of formats, whose count is one more.
pub proof fn law_format_added(
    styles: Seq<u8>,
    formats: Seq<TagView>,
    code: Seq<char>,
    pos: int,
    start: int,
    stop: int,
    end: int,
)
    requires
        format_scan(formats, code) matches Ok(scan) && scan.found is None && scan.largest < u32::MAX,
        is_list(styles, "<numFmts"@, "</numFmts>"@, pos, start, stop, end),
        u32_of_bytes(styles.subrange(start, stop)) matches Some(count) && count < u32::MAX,
    ensures
        format_ensured(styles, formats, code) matches Some(added) && (added.result matches Ok(id) && {
            &&& id == format_scan(formats, code)->Ok_0.largest + 1
            &&& added.styles == with_element(
                styles,
                start,
                stop,
                end,
                u32_of_bytes(styles.subrange(start, stop))->0,
                format_text(id, code),
            )
        }),
{
    let id = (format_scan(formats, code)->Ok_0.largest + 1) as u32;
    lemma_format_text(id, code);
    lemma_list_grows(
        styles,
        "<numFmts"@,
        "</numFmts>"@,
        pos,
        start,
        stop,
        end,
        format_tag(id, code),
    );
}

/// A number format that is added to a style sheet without formats stands, with the code that was asked
/// for, whole, and with the number that is returned, in a list of one behind the tag of the style
/// sheet.
pub proof fn law_first_format(
    a: Seq<u8>,
    b: Seq<u8>,
    c: Seq<u8>,
    formats: Seq<TagView>,
    code: Seq<char>,
)
    requires
        format_scan(formats, code) matches Ok(scan) && scan.found is None && scan.largest < u32::MAX,
        find(a + utf8("<styleSheet"@) + b + utf8(">"@) + c, utf8("</numFmts>"@)) is None,
        find(a + utf8("<styleSheet"@) + b + utf8(">"@) + c, utf8("<styleSheet"@)) == Some(
            a.len() as int,
        ),
        forall|i: int| 0 <= i < b.len() ==> #[trigger] b[i] != 62,
    ensures
        format_ensured(a + utf8("<styleSheet"@) + b + utf8(">"@) + c, formats, code) matches Some(
            added,
        ) && (added.result matches Ok(id) && {
            &&& id == format_scan(formats, code)->Ok_0.largest + 1
            &&& added.styles == a + utf8("<styleSheet"@) + b + utf8(">"@) + utf8(
                "<numFmts count=\"1\">"@ + format_text(id, code) + "</numFmts>"@,
            ) + c
        }),
{
    let open = utf8("<styleSheet"@);
    let bracket = utf8(">"@);
    let styles = a + open + b + bracket + c;
    let id = (format_scan(formats, code)->Ok_0.largest + 1) as u32;
    let at = (a.len() + open.len() + b.len()) as int;
    lemma_format_text(id, code);
    lemma_bracket();
    reveal_strlit("<styleSheet");
    lemma_utf8_ascii("<styleSheet"@);
    assert(styles.subrange(at, at + 1) =~= bracket);
    assert forall|i: int| a.len() <= i < at implies !#[trigger] occurs_at(styles, bracket, i) by {
        if occurs_at(styles, bracket, i) {
            lemma_byte_at(styles, bracket, i, 0);
            if i < a.len() + open.len() {
                assert(styles[i] == open[i - a.len()]);
                assert(open[i - a.len()] == "<styleSheet"@[i - a.len()] as u8);
            } else {
                assert(styles[i] == b[i - a.len() - open.len()]);
            }
        }
    }
    lemma_find_from_is(styles, bracket, a.len() as int, at);
    let block = utf8("<numFmts count=\"1\">"@ + format_text(id, code) + "</numFmts>"@);
    assert(insert(styles, at + 1, block) =~= a + open + b + bracket + block + c);
}

// ---- styles -------------------------------------------------------------------------------

/// An alignment names what is given of it and nothing else.
pub proof fn law_align_written(horiz: Seq<char>, vert: Option<Seq<char>>, top: Seq<char>, wrap: bool)
    ensures
        align_tag(AlignView { horiz: None, vert: None, wrap: false }) == "<alignment/>"@,
        align_tag(AlignView { horiz: None, vert: None, wrap: true })
            == "<alignment wrapText=\"1\"/>"@,
        align_tag(AlignView { horiz: None, vert: Some(top), wrap }) == "<alignment vertical=\""@ + top
            + "\""@ + align_tag(AlignView { horiz: None, vert: None, wrap }).skip(10),
        align_tag(AlignView { horiz: Some(horiz), vert, wrap }) == "<alignment horizontal=\""@ + horiz
            + "\""@ + align_tag(AlignView { horiz: None, vert, wrap }).skip(10),
{
    reveal_strlit("<alignment");
    reveal_strlit("<alignment/>");
    reveal_strlit("<alignment wrapText=\"1\"/>");
    reveal_strlit("<alignment vertical=\"");
    reveal_strlit("<alignment horizontal=\"");
    reveal_strlit(" horizontal=\"");
    reveal_strlit(" vertical=\"");
    reveal_strlit(" wrapText=\"1\"");
    reveal_strlit("\"");
    reveal_strlit("");
    reveal_strlit("/>");
    assert(align_tag(AlignView { horiz: None, vert: None, wrap: false }) =~= "<alignment/>"@);
    assert(align_tag(AlignView { horiz: None, vert: None, wrap: true })
        =~= "<alignment wrapText=\"1\"/>"@);
    assert(align_tag(AlignView { horiz: None, vert: Some(top), wrap }) =~= "<alignment vertical=\""@
        + top + "\""@ + align_tag(AlignView { horiz: None, vert: None, wrap }).skip(10));
    assert(align_tag(AlignView { horiz: Some(horiz), vert, wrap }) =~= "<alignment horizontal=\""@
        + horiz + "\""@ + align_tag(AlignView { horiz: None, vert, wrap }).skip(10));
}

/// A style without a font, a fill and an alignment names its number format, and that it is used where
/// one was asked for.
#[verifier::spinoff_prover]
#[verifier::rlimit(60)]
pub proof fn law_style_written(format: u32)
    ensures
        style_xf(false, format, None, None, None) == "<xf numFmtId=\""@ + decimal(format as nat)
            + "\" borderId=\"0\" xfId=\"0\"></xf>"@,
        style_xf(true, format, None, None, None) == "<xf numFmtId=\""@ + decimal(format as nat)
            + "\" applyNumberFormat=\"1\" borderId=\"0\" xfId=\"0\"></xf>"@,
{
    reveal_strlit("<xf ");
    reveal_strlit("numFmtId=\"");
    reveal_strlit("\" applyNumberFormat=\"1\" ");
    reveal_strlit("\" ");
    reveal_strlit("applyAlignment=\"1\" ");
    reveal_strlit("");
    reveal_strlit("borderId=\"0\" xfId=\"0\">");
    reveal_strlit("</xf>");
    reveal_strlit("<xf numFmtId=\"");
    let digits = decimal(format as nat);
    assert(style_xf(false, format, None, None, None) =~= "<xf numFmtId=\""@ + digits
        + "\" borderId=\"0\" xfId=\"0\"></xf>"@) by {
        reveal_strlit("\" borderId=\"0\" xfId=\"0\"></xf>");
    }
    assert(style_xf(true, format, None, None, None) =~= "<xf numFmtId=\""@ + digits
        + "\" applyNumberFormat=\"1\" borderId=\"0\" xfId=\"0\"></xf>"@) by {
        reveal_strlit("\" applyNumberFormat=\"1\" borderId=\"0\" xfId=\"0\"></xf>");
    }
}

/// A style with an alignment says so and holds the alignment.
#[verifier::spinoff_prover]
#[verifier::rlimit(60)]
pub proof fn law_aligned_style_written(format: u32, align: AlignView)
    ensures
        style_xf(false, format, None, None, Some(align)) == "<xf numFmtId=\""@ + decimal(
            format as nat,
        ) + "\" applyAlignment=\"1\" borderId=\"0\" xfId=\"0\">"@ + align_tag(align) + "</xf>"@,
        style_xf(true, format, None, None, Some(align)) == "<xf numFmtId=\""@ + decimal(
            format as nat,
        ) + "\" applyNumberFormat=\"1\" applyAlignment=\"1\" borderId=\"0\" xfId=\"0\">"@ + align_tag(
            align,
        ) + "</xf>"@,
{
    reveal_strlit("<xf ");
    reveal_strlit("numFmtId=\"");
    reveal_strlit("\" applyNumberFormat=\"1\" ");
    reveal_strlit("\" ");
    reveal_strlit("applyAlignment=\"1\" ");
    reveal_strlit("");
    reveal_strlit("borderId=\"0\" xfId=\"0\">");
    reveal_strlit("</xf>");
    reveal_strlit("<xf numFmtId=\"");
    let digits = decimal(format as nat);
    let inner = align_tag(align);
    assert(style_xf(false, format, None, None, Some(align)) =~= "<xf numFmtId=\""@ + digits
        + "\" applyAlignment=\"1\" borderId=\"0\" xfId=\"0\">"@ + inner + "</xf>"@) by {
        reveal_strlit("\" applyAlignment=\"1\" borderId=\"0\" xfId=\"0\">");
    }
    assert(style_xf(true, format, None, None, Some(align)) =~= "<xf numFmtId=\""@ + digits
        + "\" applyNumberFormat=\"1\" applyAlignment=\"1\" borderId=\"0\" xfId=\"0\">"@ + inner
        + "</xf>"@) by {
        reveal_strlit("\" applyNumberFormat=\"1\" applyAlignment=\"1\" borderId=\"0\" xfId=\"0\">");
    }
}

/// A style with a font, or with a fill, is the one without it with the font or the fill in front of
/// the rest.
#[verifier::spinoff_prover]
#[verifier::rlimit(60)]
pub proof fn law_style_parts_written(
    formatted: bool,
    format: u32,
    font: u32,
    fill: Option<u32>,
    colour: u32,
    align: Option<AlignView>,
)
    ensures
        style_xf(formatted, format, None, Some(colour), align) == "<xf fillId=\""@ + decimal(
            colour as nat,
        ) + "\" applyFill=\"1\" "@ + style_xf(formatted, format, None, None, align).skip(4),
        style_xf(formatted, format, Some(font), fill, align) == "<xf fontId=\""@ + decimal(
            font as nat,
        ) + "\" applyFont=\"1\" "@ + style_xf(formatted, format, None, fill, align).skip(4),
{
    reveal_strlit("<xf ");
    reveal_strlit("fontId=\"");
    reveal_strlit("fillId=\"");
    reveal_strlit("<xf fillId=\"");
    reveal_strlit("<xf fontId=\"");
    assert(style_xf(formatted, format, None, Some(colour), align) =~= "<xf fillId=\""@ + decimal(
        colour as nat,
    ) + "\" applyFill=\"1\" "@ + style_xf(formatted, format, None, None, align).skip(4));
    assert(style_xf(formatted, format, Some(font), fill, align) =~= "<xf fontId=\""@ + decimal(
        font as nat,
    ) + "\" applyFont=\"1\" "@ + style_xf(formatted, format, None, fill, align).skip(4));
}

/// A style is added where none fits, and always with an alignment: at the end of the list of styles,
/// whose count is one more, with the number format that was asked for, the font, the fill and the
/// alignment; its number is the last one of the list.
pub proof fn law_style_added(
    styles: Seq<u8>,
    num_fmt: Option<Seq<char>>,
    font: Option<u32>,
    fill: Option<u32>,
    align: Option<AlignView>,
    middle: Seq<u8>,
    format: u32,
    pos: int,
    start: int,
    stop: int,
    end: int,
)
    requires
        match num_fmt {
            Some(code) => format_ensured(
                styles,
                elements(xml_events(styles), utf8("numFmt"@)),
                code,
            ) == Some(styles_given(middle, format)),
            None => middle == styles && format == 0,
        },
        align is Some || fitting_style(
            cell_xfs(xml_events(middle), false),
            format,
            font,
            fill,
            0,
        ) == Some(Ok::<Option<u32>, ErrorView>(None)),
        is_list(middle, "<cellXfs"@, "</cellXfs>"@, pos, start, stop, end),
        u32_of_bytes(middle.subrange(start, stop)) matches Some(count) && count < u32::MAX,
        ({
            let after = with_element(
                middle,
                start,
                stop,
                end,
                u32_of_bytes(middle.subrange(start, stop))->0,
                style_xf(num_fmt is Some, format, font, fill, align),
            );
            0 < cell_xfs(xml_events(after), true).len() <= u32::MAX
        }),
    ensures
        ({
            let after = with_element(
                middle,
                start,
                stop,
                end,
                u32_of_bytes(middle.subrange(start, stop))->0,
                style_xf(num_fmt is Some, format, font, fill, align),
            );
            style_ensured(styles, num_fmt, font, fill, align) == Some(
                StylesOutcome {
                    styles: after,
                    result: Ok((cell_xfs(xml_events(after), true).len() - 1) as u32),
                },
            )
        }),
{
    lemma_list_grows(
        middle,
        "<cellXfs"@,
        "</cellXfs>"@,
        pos,
        start,
        stop,
        end,
        style_xf(num_fmt is Some, format, font, fill, align),
    );
}

} // verus!
