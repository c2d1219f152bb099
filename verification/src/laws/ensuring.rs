//! How a style sheet comes to hold a style: what is used again, what is added, and what is refused.

use vstd::prelude::*;
use crate::bytes::{find, find_from, lemma_find_from, lemma_find_from_is, occurs_at, replace};
use crate::error::ErrorView;
use crate::laws::formats::can_be_read;
use crate::laws::pieces::lemma_byte_at;
use crate::markup::count_bumped;
use crate::sheet::lemma_quote;
use crate::styles::{
    fill_ensured, fitting_style, font_ensured, format_asked, format_ensured, format_scan,
    number_attribute, style_added, style_ensured, style_xf, AlignView, FormatScan, StylesOutcome,
};
use crate::text::{decimal, text_of, u32_of, utf8};
use crate::xml::{cell_xfs, elements, listed, xml_events, TagView};

verus! {

// ---- number formats -----------------------------------------------------------------------

/// Formats whose numbers can be read are scanned, and one whose number cannot be read stops the scan.
pub proof fn law_formats_read(formats: Seq<TagView>, code: Seq<char>)
    ensures
        format_scan(formats, code) is Ok <==> forall|k: int|
            0 <= k < formats.len() ==> number_attribute(
                (#[trigger] formats[k]).attributes,
                utf8("numFmtId"@),
            ) is Ok,
    decreases formats.len(),
{
    if formats.len() > 0 {
        let front = formats.drop_last();
        let last = formats.len() - 1;
        law_formats_read(front, code);
        assert(formats[last] == formats.last());
        if format_scan(front, code) is Ok {
            assert forall|k: int| 0 <= k < last implies number_attribute(
                (#[trigger] formats[k]).attributes,
                utf8("numFmtId"@),
            ) is Ok by {
                assert(front[k] == formats[k]);
            }
        } else {
            let k = choose|k: int|
                0 <= k < front.len() && number_attribute(
                    (#[trigger] front[k]).attributes,
                    utf8("numFmtId"@),
                ) is Err;
            assert(front[k] == formats[k]);
        }
    }
}

/// A format that is there keeps its number, and the style sheet stays.
pub proof fn law_format_used_again(
    styles: Seq<u8>,
    formats: Seq<TagView>,
    code: Seq<char>,
    id: u32,
)
    requires
        format_scan(formats, code) matches Ok(scan) && scan.found == Some(id),
    ensures
        format_ensured(styles, formats, code) == Some(StylesOutcome { styles, result: Ok(id) }),
{
}

/// Formats that cannot be read, numbers that cannot grow and style sheets without a place for a list are
/// refused.
pub proof fn law_format_refused(
    styles: Seq<u8>,
    formats: Seq<TagView>,
    code: Seq<char>,
    error: ErrorView,
)
    ensures
        format_scan(formats, code) == Err::<FormatScan, ErrorView>(error) ==> format_ensured(
            styles,
            formats,
            code,
        ) == Some(StylesOutcome { styles, result: Err(error) }),
        format_scan(formats, code) matches Ok(scan) ==> {
            &&& scan.found is None && scan.largest == u32::MAX ==> format_ensured(
                styles,
                formats,
                code,
            ) is None
            &&& scan.found is None && scan.largest < u32::MAX && find(styles, utf8("</numFmts>"@)) is None
                && find(styles, utf8("<styleSheet"@)) is None ==> format_ensured(
                styles,
                formats,
                code,
            ) == Some(
                StylesOutcome {
                    styles,
                    result: Err(ErrorView::XmlTagNotFound("<styleSheet>"@)),
                },
            )
        },
{
}

/// The format that is asked for is looked up among all `numFmt` tags, and a style without one has the
/// format zero.
pub proof fn law_format_asked(styles: Seq<u8>, code: Seq<char>)
    ensures
        format_asked(styles, None) == Some(StylesOutcome { styles, result: Ok(0) }),
        format_asked(styles, Some(code)) == format_ensured(
            styles,
            elements(xml_events(styles), utf8("numFmt"@)),
            code,
        ),
{
}

// ---- styles -------------------------------------------------------------------------------

/// Every style in front of the one that fits can be read.
pub proof fn law_styles_read(
    xfs: Seq<TagView>,
    format: u32,
    font: Option<u32>,
    fill: Option<u32>,
    i: int,
)
    requires
        0 <= i,
    ensures
        fitting_style(xfs, format, font, fill, i) matches Some(Ok(found)) ==> forall|k: int|
            i <= k < (match found {
                Some(id) => id as int,
                None => xfs.len() as int,
            }) ==> #[trigger] can_be_read(xfs, k),
        xfs.len() <= u32::MAX && i <= xfs.len() ==> fitting_style(xfs, format, font, fill, i) is Some,
    decreases xfs.len() - i,
{
    if i <= u32::MAX && i < xfs.len() {
        law_styles_read(xfs, format, font, fill, i + 1);
    }
}

/// A style that is asked for: the format comes first; then a style that fits is used again, and where
/// there is none, the style that is asked for is added. A style with an alignment is always added.
pub proof fn law_style_ensured(
    styles: Seq<u8>,
    num_fmt: Option<Seq<char>>,
    font: Option<u32>,
    fill: Option<u32>,
    align: AlignView,
    formatted: Seq<u8>,
    format: u32,
)
    requires
        format_asked(styles, num_fmt) == Some(
            StylesOutcome { styles: formatted, result: Ok(format) },
        ),
    ensures
        match fitting_style(cell_xfs(xml_events(formatted), false), format, font, fill, 0) {
            Some(Ok(Some(id))) => style_ensured(styles, num_fmt, font, fill, None) == Some(
                StylesOutcome { styles: formatted, result: Ok(id) },
            ),
            Some(Ok(None)) => style_ensured(styles, num_fmt, font, fill, None) == style_added(
                formatted,
                style_xf(num_fmt is Some, format, font, fill, None),
            ),
            Some(Err(error)) => style_ensured(styles, num_fmt, font, fill, None) == Some(
                StylesOutcome { styles: formatted, result: Err(error) },
            ),
            None => style_ensured(styles, num_fmt, font, fill, None) is None,
        },
        style_ensured(styles, num_fmt, font, fill, Some(align)) == style_added(
            formatted,
            style_xf(num_fmt is Some, format, font, fill, Some(align)),
        ),
{
}

/// A style whose format cannot be had is not made.
pub proof fn law_style_without_format(
    styles: Seq<u8>,
    num_fmt: Option<Seq<char>>,
    font: Option<u32>,
    fill: Option<u32>,
    align: Option<AlignView>,
    left: Seq<u8>,
    error: ErrorView,
)
    ensures
        format_asked(styles, num_fmt) == Some(StylesOutcome { styles: left, result: Err(error) })
            ==> style_ensured(styles, num_fmt, font, fill, align) == Some(
            StylesOutcome { styles: left, result: Err(error) },
        ),
        format_asked(styles, num_fmt) is None ==> style_ensured(styles, num_fmt, font, fill, align)
            is None,
{
}

/// A style sheet without the list takes no style, no font and no fill, and stays as it is.
pub proof fn law_list_missing(
    styles: Seq<u8>,
    xf: Seq<char>,
    name: Seq<char>,
    size: Seq<char>,
    bold: bool,
    italic: bool,
    rgb: Seq<char>,
)
    ensures
        find(styles, utf8("</cellXfs>"@)) is None ==> style_added(styles, xf) == Some(
            StylesOutcome { styles, result: Err(ErrorView::XmlTagNotFound("</cellXfs>"@)) },
        ),
        find(styles, utf8("</fonts>"@)) is None && listed(
            xml_events(styles),
            utf8("fonts"@),
            utf8("font"@),
            false,
            true,
        ).len() <= u32::MAX ==> font_ensured(styles, name, size, bold, italic) == Some(
            StylesOutcome { styles, result: Err(ErrorView::XmlTagNotFound("</fonts>"@)) },
        ),
        find(styles, utf8("</fills>"@)) is None && listed(
            xml_events(styles),
            utf8("fills"@),
            utf8("fill"@),
            false,
            true,
        ).len() <= u32::MAX ==> fill_ensured(styles, rgb) == Some(
            StylesOutcome { styles, result: Err(ErrorView::XmlTagNotFound("</fills>"@)) },
        ),
{
}

// ---- counts -------------------------------------------------------------------------------

/// A count that grows is the first one behind the first tag: it is one more then, and nothing else
/// changes. A count that is no number, or no text, is refused, and the largest one cannot grow.
pub proof fn law_count_bumped(
    a: Seq<u8>,
    tag: Seq<char>,
    t: Seq<u8>,
    attr: Seq<char>,
    digits: Seq<u8>,
    b: Seq<u8>,
)
    requires
        ({
            let front = a + utf8(tag) + t;
            let xml = front + utf8(attr) + digits + utf8("\""@) + b;
            &&& find(xml, utf8(tag)) == Some(a.len() as int)
            &&& find_from(xml, utf8(attr), a.len() as int) == Some(front.len() as int)
            &&& forall|i: int| 0 <= i < digits.len() ==> #[trigger] digits[i] != 34
        }),
    ensures
        ({
            let front = a + utf8(tag) + t + utf8(attr);
            let xml = front + digits + utf8("\""@) + b;
            match text_of(digits) {
                None => count_bumped(xml, tag, attr) == Some(
                    Err::<Seq<u8>, ErrorView>(ErrorView::Utf8),
                ),
                Some(text) => match u32_of(text) {
                    None => count_bumped(xml, tag, attr) == Some(
                        Err::<Seq<u8>, ErrorView>(ErrorView::Parse),
                    ),
                    Some(n) => if n == u32::MAX {
                        count_bumped(xml, tag, attr) is None
                    } else {
                        count_bumped(xml, tag, attr) == Some(
                            Ok::<Seq<u8>, ErrorView>(
                                front + utf8(decimal((n + 1) as nat)) + utf8("\""@) + b,
                            ),
                        )
                    },
                },
            }
        }),
{
    let front = a + utf8(tag) + t + utf8(attr);
    let quote = utf8("\""@);
    let xml = front + digits + quote + b;
    let start = front.len() as int;
    let end = start + digits.len();
    lemma_quote();
    assert forall|p: int| start <= p < end implies !#[trigger] occurs_at(xml, quote, p) by {
        if occurs_at(xml, quote, p) {
            lemma_byte_at(xml, quote, p, 0);
            assert(xml[p] == digits[p - start]);
        }
    }
    assert(xml.subrange(end, end + 1) =~= quote);
    lemma_find_from_is(xml, quote, start, end);
    assert(xml.subrange(start, end) =~= digits);
    if let Some(text) = text_of(digits) {
        if let Some(n) = u32_of(text) {
            if n < u32::MAX {
                let new = utf8(decimal((n + 1) as nat));
                assert(replace(xml, start, end, new) =~= front + new + quote + b);
            }
        }
    }
}

/// Without the tag or the count behind it nothing grows.
pub proof fn law_count_missing(xml: Seq<u8>, tag: Seq<char>, attr: Seq<char>)
    ensures
        find(xml, utf8(tag)) is None || find(xml, utf8(attr)) is None ==> count_bumped(xml, tag, attr)
            == Some(Err::<Seq<u8>, ErrorView>(ErrorView::AttributeNotFound("count"@))),
{
    lemma_find_from(xml, utf8(attr), 0);
    if let Some(pos) = find(xml, utf8(tag)) {
        lemma_find_from(xml, utf8(tag), 0);
        lemma_find_from(xml, utf8(attr), pos);
    }
}

} // verus!
