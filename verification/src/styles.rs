//! The style sheet of a workbook: number formats, fonts, fills and the styles made of them.

use vstd::prelude::*;
use crate::bytes::{find, find_from, insert, insert_bytes, same_bytes};
use crate::error::{ErrorView, XlsxError};
use crate::markup::{count_bumped, try_bump_count};
use crate::text::{
    decimal, decimal_text, join3, locate, lossy, lossy_string, parse_u32, same_text, u32_of, utf8,
};
use crate::xml::{
    attribute_view, cell_xfs, elements, elements_among, events_of, listed, listed_among, tag_views,
    xml_events, AttributeView, Tag, TagView,
};
use vstd::string::*;

verus! {

/// What an operation makes of a style sheet, and what it returns.
pub struct StylesOutcome {
    pub styles: Seq<u8>,
    pub result: Result<u32, ErrorView>,
}

/// An operation that is refused with `error`.
pub open spec fn styles_refused(styles: Seq<u8>, error: ErrorView) -> StylesOutcome {
    StylesOutcome { styles, result: Err(error) }
}

/// An operation that gives the number `id`.
pub open spec fn styles_given(styles: Seq<u8>, id: u32) -> StylesOutcome {
    StylesOutcome { styles, result: Ok(id) }
}

/// An outcome holds of what an operation made and returned.
pub open spec fn styles_reached(
    outcome: Option<StylesOutcome>,
    styles: Seq<u8>,
    result: Option<Result<u32, XlsxError>>,
) -> bool {
    match outcome {
        None => result is None,
        Some(o) => result is Some && o.styles == styles && o.result == crate::error::result_view(
            result->0,
        ),
    }
}

// ---- attributes ---------------------------------------------------------------------------

/// The number that the last attribute called `key` holds. Any attribute of that name that holds no
/// number is an error.
pub open spec fn number_attribute(
    attributes: Seq<Option<AttributeView>>,
    key: Seq<u8>,
) -> Result<Option<u32>, ErrorView>
    decreases attributes.len(),
{
    if attributes.len() == 0 {
        Ok(None)
    } else {
        match number_attribute(attributes.drop_last(), key) {
            Err(e) => Err(e),
            Ok(before) => match attributes.last() {
                Some(a) if a.key == key => match u32_of(lossy(a.value)) {
                    Some(n) => Ok(Some(n)),
                    None => Err(ErrorView::Parse),
                },
                _ => Ok(before),
            },
        }
    }
}

/// The text that the last attribute called `key` holds.
pub open spec fn text_attribute(
    attributes: Seq<Option<AttributeView>>,
    key: Seq<u8>,
) -> Option<Seq<char>>
    decreases attributes.len(),
{
    if attributes.len() == 0 {
        None
    } else {
        match attributes.last() {
            Some(a) if a.key == key => Some(lossy(a.value)),
            _ => text_attribute(attributes.drop_last(), key),
        }
    }
}

/// An error among the first attributes is an error among all.
proof fn lemma_number_attribute(attributes: Seq<Option<AttributeView>>, key: Seq<u8>, k: int)
    requires
        0 <= k <= attributes.len(),
        number_attribute(attributes.take(k), key) is Err,
    ensures
        number_attribute(attributes, key) == number_attribute(attributes.take(k), key),
    decreases attributes.len(),
{
    if k == attributes.len() {
        assert(attributes.take(k) =~= attributes);
    } else {
        assert(attributes.drop_last().take(k) =~= attributes.take(k));
        lemma_number_attribute(attributes.drop_last(), key, k);
    }
}

/// The number that the last attribute called `key` holds.
fn number_attribute_of(tag: &Tag, key: &str) -> (number: Result<Option<u32>, XlsxError>)
    ensures
        crate::error::result_view(number) == number_attribute(tag@.attributes, utf8(key@)),
        number matches Err(e) ==> e@ == ErrorView::Parse,
{
    let mut found: Option<u32> = None;
    let ghost all = tag@.attributes;
    let ghost named = utf8(key@);
    let mut i: usize = 0;
    while i < tag.attributes.len()
        invariant
            i <= tag.attributes@.len(),
            all == tag@.attributes,
            named == utf8(key@),
            number_attribute(all.take(i as int), named) == Ok::<Option<u32>, ErrorView>(found),
        decreases tag.attributes@.len() - i,
    {
        let ghost next = all.take(i + 1);
        assert(next.drop_last() =~= all.take(i as int));
        assert(next.last() == attribute_view(tag.attributes@[i as int]));
        if let Some(a) = &tag.attributes[i] {
            if same_bytes(a.key.as_slice(), key.as_bytes()) {
                let text = lossy_string(a.value.as_slice());
                match parse_u32(text.as_str()) {
                    Ok(n) => {
                        found = Some(n);
                    },
                    Err(e) => {
                        proof {
                            lemma_number_attribute(all, named, i + 1);
                        }
                        return Err(XlsxError::Parse(e));
                    },
                }
            }
        }
        i += 1;
    }
    assert(all.take(i as int) =~= all);
    Ok(found)
}

/// The text that the last attribute called `key` holds.
fn text_attribute_of(tag: &Tag, key: &str) -> (text: Option<String>)
    ensures
        match text {
            Some(t) => text_attribute(tag@.attributes, utf8(key@)) == Some(t@),
            None => text_attribute(tag@.attributes, utf8(key@)) is None,
        },
{
    let ghost all = tag@.attributes;
    let ghost named = utf8(key@);
    let mut i: usize = tag.attributes.len();
    assert(all.take(i as int) =~= all);
    while i > 0
        invariant
            i <= tag.attributes@.len(),
            all == tag@.attributes,
            named == utf8(key@),
            text_attribute(all, named) == text_attribute(all.take(i as int), named),
        decreases i,
    {
        i -= 1;
        let ghost part = all.take(i + 1);
        assert(part.drop_last() =~= all.take(i as int));
        assert(part.last() == attribute_view(tag.attributes@[i as int]));
        if let Some(a) = &tag.attributes[i] {
            if same_bytes(a.key.as_slice(), key.as_bytes()) {
                return Some(lossy_string(a.value.as_slice()));
            }
        }
    }
    None
}

// ---- number formats -----------------------------------------------------------------------

/// What the number formats of a style sheet say of a format: its number if it is there, and the
/// largest number that is taken. The numbers up to 163 are taken from the start.
pub struct FormatScan {
    pub found: Option<u32>,
    pub largest: u32,
}

/// What the tags `formats` say of the format `code`.
pub open spec fn format_scan(formats: Seq<TagView>, code: Seq<char>) -> Result<
    FormatScan,
    ErrorView,
>
    decreases formats.len(),
{
    if formats.len() == 0 {
        Ok(FormatScan { found: None, largest: 163 })
    } else {
        match format_scan(formats.drop_last(), code) {
            Err(e) => Err(e),
            Ok(before) => {
                let attributes = formats.last().attributes;
                match number_attribute(attributes, utf8("numFmtId"@)) {
                    Err(e) => Err(e),
                    Ok(id) => match (id, text_attribute(attributes, utf8("formatCode"@))) {
                        (Some(i), Some(text)) => Ok(
                            FormatScan {
                                found: if text == code {
                                    Some(i)
                                } else {
                                    before.found
                                },
                                largest: if i > before.largest {
                                    i
                                } else {
                                    before.largest
                                },
                            },
                        ),
                        _ => Ok(before),
                    },
                }
            },
        }
    }
}

/// The tag for the number format `code` with the number `id`.
pub open spec fn format_tag(id: u32, code: Seq<char>) -> Seq<char> {
    "<numFmt numFmtId=\""@ + decimal(id as nat) + ("\" formatCode=\""@ + code + "\"/>"@)
}

/// Where the `styleSheet` tag of a style sheet ends.
pub open spec fn root_stop(styles: Seq<u8>) -> Option<int> {
    match find(styles, utf8("<styleSheet"@)) {
        None => None,
        Some(start) => match find_from(styles, utf8(">"@), start) {
            None => None,
            Some(at) => Some(at + utf8(">"@).len()),
        },
    }
}

/// What a style sheet becomes that is to hold the number format `code`, where `formats` are the
/// tags of those that it holds: one that is there keeps its number, and any other gets the next
/// one and goes to the end of their list, or into a new list behind the `styleSheet` tag. `None`
/// stands for a number that cannot grow, and for a count without a quote behind it.
pub open spec fn format_ensured(styles: Seq<u8>, formats: Seq<TagView>, code: Seq<char>) -> Option<
    StylesOutcome,
> {
    match format_scan(formats, code) {
        Err(e) => Some(styles_refused(styles, e)),
        Ok(scan) => match scan.found {
            Some(id) => Some(styles_given(styles, id)),
            None => if scan.largest == u32::MAX {
                None
            } else {
                let id = (scan.largest + 1) as u32;
                match find(styles, utf8("</numFmts>"@)) {
                    Some(end) => {
                        let longer = insert(styles, end, utf8(format_tag(id, code)));
                        match count_bumped(longer, "<numFmts"@, "count=\""@) {
                            None => None,
                            Some(Err(e)) => Some(styles_refused(longer, e)),
                            Some(Ok(bumped)) => Some(styles_given(bumped, id)),
                        }
                    },
                    None => match root_stop(styles) {
                        None => Some(
                            styles_refused(styles, ErrorView::XmlTagNotFound("<styleSheet>"@)),
                        ),
                        Some(at) => Some(
                            styles_given(
                                insert(
                                    styles,
                                    at,
                                    utf8(
                                        "<numFmts count=\"1\">"@ + format_tag(id, code)
                                            + "</numFmts>"@,
                                    ),
                                ),
                                id,
                            ),
                        ),
                    },
                }
            },
        },
    }
}

/// An error among the first formats is an error among all.
proof fn lemma_format_scan(formats: Seq<TagView>, code: Seq<char>, k: int)
    requires
        0 <= k <= formats.len(),
        format_scan(formats.take(k), code) is Err,
    ensures
        format_scan(formats, code) == format_scan(formats.take(k), code),
    decreases formats.len(),
{
    if k == formats.len() {
        assert(formats.take(k) =~= formats);
    } else {
        assert(formats.drop_last().take(k) =~= formats.take(k));
        lemma_format_scan(formats.drop_last(), code, k);
    }
}

/// What the tags `formats` say of the format `code`: its number if it is there, and the largest
/// number that is taken.
pub fn scan_formats(formats: &[&Tag], code: &str) -> (scan: Result<
    (Option<u32>, u32),
    XlsxError,
>)
    ensures
        match scan {
            Ok((found, largest)) => format_scan(tag_views(formats@), code@) == Ok::<
                FormatScan,
                ErrorView,
            >(FormatScan { found, largest }),
            Err(e) => format_scan(tag_views(formats@), code@) == Err::<FormatScan, ErrorView>(e@),
        },
{
    let ghost all = tag_views(formats@);
    let mut found: Option<u32> = None;
    let mut largest: u32 = 163;
    let mut i: usize = 0;
    while i < formats.len()
        invariant
            i <= formats@.len(),
            all == tag_views(formats@),
            format_scan(all.take(i as int), code@) == Ok::<FormatScan, ErrorView>(
                FormatScan { found, largest },
            ),
        decreases formats@.len() - i,
    {
        let ghost next = all.take(i + 1);
        assert(next.drop_last() =~= all.take(i as int));
        assert(next.last() == formats@[i as int]@);
        let id = match number_attribute_of(formats[i], "numFmtId") {
            Ok(id) => id,
            Err(e) => {
                proof {
                    lemma_format_scan(all, code@, i + 1);
                }
                return Err(e);
            },
        };
        let text = text_attribute_of(formats[i], "formatCode");
        if let (Some(n), Some(t)) = (id, text) {
            if same_text(t.as_str(), code) {
                found = Some(n);
            }
            if n > largest {
                largest = n;
            }
        }
        i += 1;
    }
    assert(all.take(i as int) =~= all);
    Ok((found, largest))
}

/// Makes sure that a style sheet holds the number format `code`, and gives its number, or gives
/// `None` where a number cannot grow or a count has no quote behind it.
pub fn try_ensure_format(styles: &mut Vec<u8>, formats: &[&Tag], code: &str) -> (id: Option<
    Result<u32, XlsxError>,
>)
    ensures
        styles_reached(
            format_ensured(old(styles)@, tag_views(formats@), code@),
            final(styles)@,
            id,
        ),
{
    let (found, largest) = match scan_formats(formats, code) {
        Ok(scan) => scan,
        Err(e) => {
            return Some(Err(e));
        },
    };
    if let Some(id) = found {
        return Some(Ok(id));
    }
    if largest == u32::MAX {
        return None;
    }
    let id: u32 = largest + 1;
    let digits = decimal_text(id as u64);
    let behind = join3("\" formatCode=\"", code, "\"/>");
    let tag = join3("<numFmt numFmtId=\"", digits.as_str(), behind.as_str());
    if let Some(end) = locate(styles.as_slice(), "</numFmts>", 0) {
        insert_bytes(styles, end, tag.as_str().as_bytes());
        return match try_bump_count(styles, "<numFmts", "count=\"") {
            None => None,
            Some(Err(e)) => Some(Err(e)),
            Some(Ok(())) => Some(Ok(id)),
        };
    }
    let root: Option<usize> = match locate(styles.as_slice(), "<styleSheet", 0) {
        None => None,
        Some(start) => locate(styles.as_slice(), ">", start),
    };
    match root {
        None => Some(Err(XlsxError::XmlTagNotFound { tag: "<styleSheet>".to_owned() })),
        Some(at) => {
            let block = join3("<numFmts count=\"1\">", tag.as_str(), "</numFmts>");
            insert_bytes(styles, at + ">".len(), block.as_str().as_bytes());
            Some(Ok(id))
        },
    }
}

// ---- styles -------------------------------------------------------------------------------

/// How the contents of a cell are aligned.
#[derive(Clone)]
pub struct AlignSpec {
    /// `center`, `left` and so on.
    pub horiz: Option<String>,
    /// `center`, `top` and so on.
    pub vert: Option<String>,
    pub wrap: bool,
}

/// The view of an alignment.
pub struct AlignView {
    pub horiz: Option<Seq<char>>,
    pub vert: Option<Seq<char>>,
    pub wrap: bool,
}

/// The view of a text that may be missing.
pub open spec fn optional_text(text: Option<String>) -> Option<Seq<char>> {
    match text {
        Some(t) => Some(t@),
        None => None,
    }
}

impl View for AlignSpec {
    type V = AlignView;

    open spec fn view(&self) -> AlignView {
        AlignView {
            horiz: optional_text(self.horiz),
            vert: optional_text(self.vert),
            wrap: self.wrap,
        }
    }
}

/// The view of an alignment that may be missing.
pub open spec fn optional_align(align: Option<&AlignSpec>) -> Option<AlignView> {
    match align {
        Some(a) => Some(a@),
        None => None,
    }
}

/// An attribute ` key="value"`, or nothing without a value.
pub open spec fn optional_attribute(head: Seq<char>, value: Option<Seq<char>>, tail: Seq<char>) -> Seq<
    char,
> {
    match value {
        Some(v) => head + v + tail,
        None => Seq::empty(),
    }
}

/// A number in decimal, if there is one.
pub open spec fn optional_decimal(number: Option<u32>) -> Option<Seq<char>> {
    match number {
        Some(n) => Some(decimal(n as nat)),
        None => None,
    }
}

/// The element for an alignment.
pub open spec fn align_tag(align: AlignView) -> Seq<char> {
    "<alignment"@ + optional_attribute(" horizontal=\""@, align.horiz, "\""@)
        + optional_attribute(" vertical=\""@, align.vert, "\""@) + (if align.wrap {
        " wrapText=\"1\""@
    } else {
        ""@
    }) + "/>"@
}

/// The element for a style: its font, its fill, its number format and its alignment.
pub open spec fn style_xf(
    formatted: bool,
    format: u32,
    font: Option<u32>,
    fill: Option<u32>,
    align: Option<AlignView>,
) -> Seq<char> {
    "<xf "@ + optional_attribute("fontId=\""@, optional_decimal(font), "\" applyFont=\"1\" "@)
        + optional_attribute("fillId=\""@, optional_decimal(fill), "\" applyFill=\"1\" "@)
        + "numFmtId=\""@ + decimal(format as nat) + (if formatted {
        "\" applyNumberFormat=\"1\" "@
    } else {
        "\" "@
    }) + (if align is Some {
        "applyAlignment=\"1\" "@
    } else {
        ""@
    }) + "borderId=\"0\" xfId=\"0\">"@ + (match align {
        Some(a) => align_tag(a),
        None => ""@,
    }) + "</xf>"@
}

/// A style has the number format `format`, and the font and the fill that are asked for.
pub open spec fn style_fits(
    number: Option<u32>,
    has_font: Option<u32>,
    has_fill: Option<u32>,
    format: u32,
    font: Option<u32>,
    fill: Option<u32>,
) -> bool {
    &&& (match number {
        Some(n) => n,
        None => 0,
    }) == format
    &&& font is Some ==> has_font == font
    &&& fill is Some ==> has_fill == fill
}

/// The first of the styles `xfs`, from the `i`-th on, that fits. `None` stands for more styles than
/// can be numbered.
pub open spec fn fitting_style(
    xfs: Seq<TagView>,
    format: u32,
    font: Option<u32>,
    fill: Option<u32>,
    i: int,
) -> Option<Result<Option<u32>, ErrorView>>
    decreases xfs.len() - i,
{
    if i < 0 || i > u32::MAX {
        None
    } else if i >= xfs.len() {
        Some(Ok(None))
    } else {
        match (
            number_attribute(xfs[i].attributes, utf8("numFmtId"@)),
            number_attribute(xfs[i].attributes, utf8("fontId"@)),
            number_attribute(xfs[i].attributes, utf8("fillId"@)),
        ) {
            (Ok(number), Ok(has_font), Ok(has_fill)) => if style_fits(
                number,
                has_font,
                has_fill,
                format,
                font,
                fill,
            ) {
                Some(Ok(Some(i as u32)))
            } else {
                fitting_style(xfs, format, font, fill, i + 1)
            },
            _ => Some(Err(ErrorView::Parse)),
        }
    }
}

/// What a style sheet becomes when the style `xf` is added: it goes to the end of the first list of
/// styles, whose count grows, and its number is the last one of the first list that can be read.
/// `None` stands for a count without a quote behind it or one that cannot grow, and for a list
/// that is empty or too long.
pub open spec fn style_added(styles: Seq<u8>, xf: Seq<char>) -> Option<StylesOutcome> {
    match find(styles, utf8("</cellXfs>"@)) {
        None => Some(styles_refused(styles, ErrorView::XmlTagNotFound("</cellXfs>"@))),
        Some(end) => {
            let longer = insert(styles, end, utf8(xf));
            match count_bumped(longer, "<cellXfs"@, "count=\""@) {
                None => None,
                Some(Err(e)) => Some(styles_refused(longer, e)),
                Some(Ok(bumped)) => {
                    let count = cell_xfs(xml_events(bumped), true).len();
                    if 0 < count <= u32::MAX {
                        Some(styles_given(bumped, (count - 1) as u32))
                    } else {
                        None
                    }
                },
            }
        },
    }
}

/// What a style sheet becomes that is to hold the number format of a style, and the format's number:
/// zero stands for none.
pub open spec fn format_asked(styles: Seq<u8>, num_fmt: Option<Seq<char>>) -> Option<StylesOutcome> {
    match num_fmt {
        Some(code) => format_ensured(
            styles,
            elements(xml_events(styles), utf8("numFmt"@)),
            code,
        ),
        None => Some(styles_given(styles, 0)),
    }
}

/// What a style sheet becomes that is to hold a style, and the style's number: one that fits is
/// used again, but with an alignment a new one is always added.
pub open spec fn style_ensured(
    styles: Seq<u8>,
    num_fmt: Option<Seq<char>>,
    font: Option<u32>,
    fill: Option<u32>,
    align: Option<AlignView>,
) -> Option<StylesOutcome> {
    match format_asked(styles, num_fmt) {
        None => None,
        Some(formatted) => match formatted.result {
            Err(e) => Some(formatted),
            Ok(format) => {
                let xf = style_xf(num_fmt is Some, format, font, fill, align);
                if align is Some {
                    style_added(formatted.styles, xf)
                } else {
                    match fitting_style(
                        cell_xfs(xml_events(formatted.styles), false),
                        format,
                        font,
                        fill,
                        0,
                    ) {
                        None => None,
                        Some(Err(e)) => Some(styles_refused(formatted.styles, e)),
                        Some(Ok(Some(id))) => Some(styles_given(formatted.styles, id)),
                        Some(Ok(None)) => style_added(formatted.styles, xf),
                    }
                }
            },
        },
    }
}

/// Appends an attribute with a number, if there is one.
fn append_number(text: &mut String, head: &str, number: Option<u32>, tail: &str)
    ensures
        final(text)@ == old(text)@ + optional_attribute(head@, optional_decimal(number), tail@),
{
    if let Some(n) = number {
        text.append(head);
        text.append(decimal_text(n as u64).as_str());
        text.append(tail);
    }
    assert(text@ =~= old(text)@ + optional_attribute(head@, optional_decimal(number), tail@));
}

/// Appends an attribute with a text, if there is one.
fn append_text(text: &mut String, head: &str, value: &Option<String>, tail: &str)
    ensures
        final(text)@ == old(text)@ + optional_attribute(head@, optional_text(*value), tail@),
{
    if let Some(v) = value {
        text.append(head);
        text.append(v.as_str());
        text.append(tail);
    }
    assert(text@ =~= old(text)@ + optional_attribute(head@, optional_text(*value), tail@));
}

/// The element for an alignment.
fn align_text(align: &AlignSpec) -> (tag: String)
    ensures
        tag@ == align_tag(align@),
{
    let mut tag: String = "<alignment".to_owned();
    append_text(&mut tag, " horizontal=\"", &align.horiz, "\"");
    append_text(&mut tag, " vertical=\"", &align.vert, "\"");
    tag.append(if align.wrap { " wrapText=\"1\"" } else { "" });
    tag.append("/>");
    tag
}

/// The element for a style.
pub fn style_text(
    formatted: bool,
    format: u32,
    font: Option<u32>,
    fill: Option<u32>,
    align: Option<&AlignSpec>,
) -> (xf: String)
    ensures
        xf@ == style_xf(formatted, format, font, fill, optional_align(align)),
{
    let mut xf: String = "<xf ".to_owned();
    append_number(&mut xf, "fontId=\"", font, "\" applyFont=\"1\" ");
    append_number(&mut xf, "fillId=\"", fill, "\" applyFill=\"1\" ");
    xf.append("numFmtId=\"");
    xf.append(decimal_text(format as u64).as_str());
    xf.append(if formatted { "\" applyNumberFormat=\"1\" " } else { "\" " });
    xf.append(if align.is_some() { "applyAlignment=\"1\" " } else { "" });
    xf.append("borderId=\"0\" xfId=\"0\">");
    match align {
        Some(a) => {
            xf.append(align_text(a).as_str());
        },
        None => {
            xf.append("");
        },
    }
    xf.append("</xf>");
    xf
}

/// The first of the styles `xfs` that fits, or `None` where there are more than can be numbered.
pub fn try_fitting_style(
    xfs: &[&Tag],
    format: u32,
    font: Option<u32>,
    fill: Option<u32>,
) -> (found: Option<Result<Option<u32>, XlsxError>>)
    ensures
        match found {
            None => fitting_style(tag_views(xfs@), format, font, fill, 0) is None,
            Some(f) => fitting_style(tag_views(xfs@), format, font, fill, 0) == Some(
                crate::error::result_view(f),
            ),
        },
{
    let ghost all = tag_views(xfs@);
    let mut i: usize = 0;
    while i < xfs.len()
        invariant
            i <= xfs@.len(),
            i <= u32::MAX,
            all == tag_views(xfs@),
            fitting_style(all, format, font, fill, 0) == fitting_style(
                all,
                format,
                font,
                fill,
                i as int,
            ),
        decreases xfs@.len() - i,
    {
        assert(all[i as int] == xfs@[i as int]@);
        let number = match number_attribute_of(xfs[i], "numFmtId") {
            Ok(number) => number,
            Err(e) => {
                return Some(Err(e));
            },
        };
        let has_font = match number_attribute_of(xfs[i], "fontId") {
            Ok(font) => font,
            Err(e) => {
                return Some(Err(e));
            },
        };
        let has_fill = match number_attribute_of(xfs[i], "fillId") {
            Ok(fill) => fill,
            Err(e) => {
                return Some(Err(e));
            },
        };
        let id: u32 = match number {
            Some(n) => n,
            None => 0,
        };
        if id == format && allows(font, has_font) && allows(fill, has_fill) {
            return Some(Ok(Some(i as u32)));
        }
        if i >= u32::MAX as usize {
            assert(fitting_style(all, format, font, fill, i + 1) is None);
            return None;
        }
        i += 1;
    }
    Some(Ok(None))
}

/// Whether nothing is asked for, or what is there is what is asked for.
fn allows(asked: Option<u32>, there: Option<u32>) -> (ok: bool)
    ensures
        ok == (asked is Some ==> there == asked),
{
    match (asked, there) {
        (None, _) => true,
        (Some(a), Some(t)) => a == t,
        (Some(_), None) => false,
    }
}

/// Adds the style `xf` and gives its number, or gives `None` where a count has no quote behind it
/// or cannot grow, or the list of styles is empty or too long.
fn run_add_style(styles: &mut Vec<u8>, xf: &str) -> (id: Option<Result<u32, XlsxError>>)
    ensures
        styles_reached(style_added(old(styles)@, xf@), final(styles)@, id),
{
    let end: usize = match locate(styles.as_slice(), "</cellXfs>", 0) {
        None => {
            return Some(Err(XlsxError::XmlTagNotFound { tag: "</cellXfs>".to_owned() }));
        },
        Some(end) => end,
    };
    insert_bytes(styles, end, xf.as_bytes());
    match try_bump_count(styles, "<cellXfs", "count=\"") {
        None => {
            return None;
        },
        Some(Err(e)) => {
            return Some(Err(e));
        },
        Some(Ok(())) => {},
    }
    let events = events_of(styles.as_slice());
    let xfs = listed_among(events.as_slice(), "cellXfs", "xf", true);
    assert(tag_views(xfs@).len() == xfs@.len());
    let count: usize = xfs.len();
    if count == 0 || count > u32::MAX as usize {
        return None;
    }
    Some(Ok((count - 1) as u32))
}

/// Makes sure that a style sheet holds a style, and gives its number, or gives `None` where numbers
/// or counts cannot grow or have no quote behind them.
pub(crate) fn run_ensure_style(
    styles: &mut Vec<u8>,
    num_fmt: Option<&str>,
    font: Option<u32>,
    fill: Option<u32>,
    align: Option<&AlignSpec>,
) -> (id: Option<Result<u32, XlsxError>>)
    ensures
        styles_reached(
            style_ensured(old(styles)@, optional_str(num_fmt), font, fill, optional_align(align)),
            final(styles)@,
            id,
        ),
{
    let mut format: u32 = 0;
    if let Some(code) = num_fmt {
        let events = events_of(styles.as_slice());
        let formats = elements_among(events.as_slice(), "numFmt");
        match try_ensure_format(styles, formats.as_slice(), code) {
            None => {
                return None;
            },
            Some(Err(e)) => {
                return Some(Err(e));
            },
            Some(Ok(id)) => {
                format = id;
            },
        }
    }
    if align.is_none() {
        let events = events_of(styles.as_slice());
        let xfs = listed_among(events.as_slice(), "cellXfs", "xf", false);
        match try_fitting_style(xfs.as_slice(), format, font, fill) {
            None => {
                return None;
            },
            Some(Err(e)) => {
                return Some(Err(e));
            },
            Some(Ok(Some(id))) => {
                return Some(Ok(id));
            },
            Some(Ok(None)) => {},
        }
    }
    let xf = style_text(num_fmt.is_some(), format, font, fill, align);
    run_add_style(styles, xf.as_str())
}

/// The view of a text that may be missing.
pub open spec fn optional_str(text: Option<&str>) -> Option<Seq<char>> {
    match text {
        Some(t) => Some(t@),
        None => None,
    }
}

// ---- fonts and fills ----------------------------------------------------------------------

/// What a style sheet becomes when `element` goes to the end of the first list that `close` ends,
/// whose count, in the first tag that starts with `list`, grows. The element's number is the
/// number of those that are there. `None` stands for more than can be numbered, and for a count
/// without a quote behind it or one that cannot grow.
pub open spec fn element_added(
    styles: Seq<u8>,
    there: nat,
    element: Seq<char>,
    list: Seq<char>,
    close: Seq<char>,
) -> Option<StylesOutcome> {
    if there > u32::MAX {
        None
    } else {
        match find(styles, utf8(close)) {
            None => Some(styles_refused(styles, ErrorView::XmlTagNotFound(close))),
            Some(end) => {
                let longer = insert(styles, end, utf8(element));
                match count_bumped(longer, list, "count=\""@) {
                    None => None,
                    Some(Err(e)) => Some(styles_refused(longer, e)),
                    Some(Ok(bumped)) => Some(styles_given(bumped, there as u32)),
                }
            },
        }
    }
}

/// The element for a font.
pub open spec fn font_element(
    name: Seq<char>,
    size: Seq<char>,
    bold: bool,
    italic: bool,
) -> Seq<char> {
    "<font>"@ + (if bold {
        "<b/>"@
    } else {
        ""@
    }) + (if italic {
        "<i/>"@
    } else {
        ""@
    }) + "<sz val=\""@ + size + "\"/><name val=\""@ + name + "\"/></font>"@
}

/// The element for a fill in one colour.
pub open spec fn fill_element(rgb: Seq<char>) -> Seq<char> {
    "<fill><patternFill patternType=\"solid\"><fgColor rgb=\""@ + rgb
        + "\"/><bgColor indexed=\"64\"/></patternFill></fill>"@
}

/// What a style sheet becomes when a font is added, and the font's number in the list of fonts.
pub open spec fn font_ensured(
    styles: Seq<u8>,
    name: Seq<char>,
    size: Seq<char>,
    bold: bool,
    italic: bool,
) -> Option<StylesOutcome> {
    element_added(
        styles,
        listed(xml_events(styles), utf8("fonts"@), utf8("font"@), false, true).len(),
        font_element(name, size, bold, italic),
        "<fonts"@,
        "</fonts>"@,
    )
}

/// What a style sheet becomes when a fill is added, and the fill's number in the list of fills.
pub open spec fn fill_ensured(styles: Seq<u8>, rgb: Seq<char>) -> Option<StylesOutcome> {
    element_added(
        styles,
        listed(xml_events(styles), utf8("fills"@), utf8("fill"@), false, true).len(),
        fill_element(rgb),
        "<fills"@,
        "</fills>"@,
    )
}

/// Adds an element to the end of a list, or gives `None` where there are more than can be numbered,
/// or the list's count has no quote behind it or cannot grow.
pub fn try_add_element(
    styles: &mut Vec<u8>,
    there: usize,
    element: &str,
    list: &str,
    close: &str,
) -> (id: Option<Result<u32, XlsxError>>)
    ensures
        styles_reached(
            element_added(old(styles)@, there as nat, element@, list@, close@),
            final(styles)@,
            id,
        ),
{
    if there > u32::MAX as usize {
        return None;
    }
    match locate(styles.as_slice(), close, 0) {
        None => Some(Err(XlsxError::XmlTagNotFound { tag: close.to_owned() })),
        Some(end) => {
            insert_bytes(styles, end, element.as_bytes());
            match try_bump_count(styles, list, "count=\"") {
                None => None,
                Some(Err(e)) => Some(Err(e)),
                Some(Ok(())) => Some(Ok(there as u32)),
            }
        },
    }
}

/// The number of elements called `item` in the first section called `section`.
fn count_of(xml: &[u8], section: &str, item: &str) -> (count: usize)
    ensures
        count == listed(xml_events(xml@), utf8(section@), utf8(item@), false, true).len(),
{
    let events = events_of(xml);
    let tags = listed_among(events.as_slice(), section, item, true);
    assert(tag_views(tags@).len() == tags@.len());
    tags.len()
}

/// Adds a font and gives its number, or gives `None` where there are more than can be numbered, or
/// their count has no quote behind it or cannot grow.
pub(crate) fn run_ensure_font(
    styles: &mut Vec<u8>,
    name: &str,
    size: &str,
    bold: bool,
    italic: bool,
) -> (id: Option<Result<u32, XlsxError>>)
    ensures
        styles_reached(
            font_ensured(old(styles)@, name@, size@, bold, italic),
            final(styles)@,
            id,
        ),
{
    let there: usize = count_of(styles.as_slice(), "fonts", "font");
    let mut font: String = "<font>".to_owned();
    font.append(if bold { "<b/>" } else { "" });
    font.append(if italic { "<i/>" } else { "" });
    font.append("<sz val=\"");
    font.append(size);
    font.append("\"/><name val=\"");
    font.append(name);
    font.append("\"/></font>");
    try_add_element(styles, there, font.as_str(), "<fonts", "</fonts>")
}

/// Adds a fill and gives its number, or gives `None` where there are more than can be numbered, or
/// their count has no quote behind it or cannot grow.
pub(crate) fn run_ensure_fill(styles: &mut Vec<u8>, rgb: &str) -> (id: Option<
    Result<u32, XlsxError>,
>)
    ensures
        styles_reached(fill_ensured(old(styles)@, rgb@), final(styles)@, id),
{
    let there: usize = count_of(styles.as_slice(), "fills", "fill");
    let fill = join3(
        "<fill><patternFill patternType=\"solid\"><fgColor rgb=\"",
        rgb,
        "\"/><bgColor indexed=\"64\"/></patternFill></fill>",
    );
    try_add_element(styles, there, fill.as_str(), "<fills", "</fills>")
}

// ---- what a style is made of --------------------------------------------------------------

/// The font and the fill of the style with number `style` among `xfs`, as far as it has them.
pub open spec fn style_parts(xfs: Seq<TagView>, style: u32) -> Result<
    (Option<u32>, Option<u32>),
    ErrorView,
> {
    if style < xfs.len() {
        match (
            number_attribute(xfs[style as int].attributes, utf8("fontId"@)),
            number_attribute(xfs[style as int].attributes, utf8("fillId"@)),
        ) {
            (Ok(font), Ok(fill)) => Ok((font, fill)),
            _ => Err(ErrorView::Parse),
        }
    } else {
        Ok((None, None))
    }
}

/// The font and the fill of the style with number `style` among `xfs`.
pub fn parts_of_style(xfs: &[&Tag], style: u32) -> (parts: Result<
    (Option<u32>, Option<u32>),
    XlsxError,
>)
    ensures
        crate::error::result_view(parts) == style_parts(tag_views(xfs@), style),
{
    assert(tag_views(xfs@).len() == xfs@.len());
    if (style as usize) < xfs.len() {
        let tag = xfs[style as usize];
        assert(tag_views(xfs@)[style as int] == tag@);
        let font = match number_attribute_of(tag, "fontId") {
            Ok(font) => font,
            Err(e) => {
                return Err(e);
            },
        };
        match number_attribute_of(tag, "fillId") {
            Ok(fill) => Ok((font, fill)),
            Err(e) => Err(e),
        }
    } else {
        Ok((None, None))
    }
}

/// The font and the fill of the style with number `style` in a style sheet.
pub fn xf_components(styles: &[u8], style: u32) -> (parts: Result<
    (Option<u32>, Option<u32>),
    XlsxError,
>)
    ensures
        crate::error::result_view(parts) == style_parts(
            cell_xfs(xml_events(styles@), true),
            style,
        ),
{
    let events = events_of(styles);
    let xfs = listed_among(events.as_slice(), "cellXfs", "xf", true);
    parts_of_style(xfs.as_slice(), style)
}

} // verus!
