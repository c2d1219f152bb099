//! Styles that are used again.

use vstd::prelude::*;
use crate::bytes::{find, find_from, insert, lemma_find_from, replace};
use crate::error::ErrorView;
use crate::laws::marks::{count_in, law_count_grows, lemma_found_before};
use crate::laws::pieces::lemma_byte_at;
use crate::styles::{
    fitting_style, format_asked, format_ensured, format_scan, number_attribute, style_added,
    style_ensured, style_parts, styles_given, text_attribute, StylesOutcome,
};
use crate::text::{decimal, lemma_utf8_ascii, u32_of_bytes, utf8};
use crate::xml::{cell_xfs, elements, xml_events, AttributeView, TagView};

verus! {

/// The style `i` of a list has the number format `format`, and the font and the fill that are asked
/// for.
pub open spec fn fits_at(
    xfs: Seq<TagView>,
    i: int,
    format: u32,
    font: Option<u32>,
    fill: Option<u32>,
) -> bool {
    match (
        number_attribute(xfs[i].attributes, utf8("numFmtId"@)),
        number_attribute(xfs[i].attributes, utf8("fontId"@)),
        number_attribute(xfs[i].attributes, utf8("fillId"@)),
    ) {
        (Ok(number), Ok(has_font), Ok(has_fill)) => {
            &&& number == Some(format) || (number is None && format == 0)
            &&& font is Some ==> has_font == font
            &&& fill is Some ==> has_fill == fill
        },
        _ => false,
    }
}

/// The style that is used again is one that fits, and none in front of it fits; where none is used
/// again, none fits. A style that cannot be read in front of the first that fits is refused.
pub proof fn law_fitting_style(
    xfs: Seq<TagView>,
    format: u32,
    font: Option<u32>,
    fill: Option<u32>,
    i: int,
)
    requires
        0 <= i,
    ensures
        fitting_style(xfs, format, font, fill, i) matches Some(Ok(found)) ==> match found {
            Some(id) => {
                &&& i <= id < xfs.len()
                &&& fits_at(xfs, id as int, format, font, fill)
                &&& forall|k: int|
                    i <= k < id ==> !#[trigger] fits_at(xfs, k, format, font, fill)
            },
            None => forall|k: int|
                i <= k < xfs.len() ==> !#[trigger] fits_at(xfs, k, format, font, fill),
        },
        fitting_style(xfs, format, font, fill, i) matches Some(Err(e)) ==> e == ErrorView::Parse
            && exists|k: int|
            i <= k < xfs.len() && !#[trigger] can_be_read(xfs, k) && forall|j: int|
                i <= j < k ==> !#[trigger] fits_at(xfs, j, format, font, fill),
        fitting_style(xfs, format, font, fill, i) is None ==> xfs.len() > u32::MAX || i > u32::MAX,
    decreases xfs.len() - i,
{
    if i <= u32::MAX && i < xfs.len() {
        law_fitting_style(xfs, format, font, fill, i + 1);
        if fitting_style(xfs, format, font, fill, i) matches Some(Err(_)) {
            if !can_be_read(xfs, i) {
                assert(!can_be_read(xfs, i));
            } else {
                let k = choose|k: int|
                    i + 1 <= k < xfs.len() && !#[trigger] can_be_read(xfs, k) && forall|j: int|
                        i + 1 <= j < k ==> !#[trigger] fits_at(xfs, j, format, font, fill);
                assert(!can_be_read(xfs, k));
            }
        }
    }
}

/// The number format, the font and the fill of the style `i` of a list are numbers, where it has them.
pub open spec fn can_be_read(xfs: Seq<TagView>, i: int) -> bool {
    &&& number_attribute(xfs[i].attributes, utf8("numFmtId"@)) is Ok
    &&& number_attribute(xfs[i].attributes, utf8("fontId"@)) is Ok
    &&& number_attribute(xfs[i].attributes, utf8("fillId"@)) is Ok
}

/// Asking for a style that fits leaves the style sheet as it is, and asking again gives the same
/// number; in a style sheet with one list of styles, the style has the font and the fill that were
/// asked for.
pub proof fn law_style_used_again(styles: Seq<u8>, font: Option<u32>, fill: Option<u32>, id: u32)
    requires
        fitting_style(cell_xfs(xml_events(styles), false), 0, font, fill, 0) == Some(
            Ok::<Option<u32>, crate::error::ErrorView>(Some(id)),
        ),
    ensures
        style_ensured(styles, None, font, fill, None) == Some(
            StylesOutcome { styles, result: Ok(id) },
        ),
        cell_xfs(xml_events(styles), true) == cell_xfs(xml_events(styles), false) ==> (style_parts(
            cell_xfs(xml_events(styles), true),
            id,
        ) matches Ok((has_font, has_fill)) && (font is Some ==> has_font == font) && (fill is Some
            ==> has_fill == fill)),
{
    law_fitting_style(cell_xfs(xml_events(styles), false), 0, font, fill, 0);
}

/// A style beyond the list has no font and no fill.
pub proof fn law_style_beyond_list(xfs: Seq<TagView>, style: u32)
    requires
        style >= xfs.len(),
    ensures
        style_parts(xfs, style) == Ok::<(Option<u32>, Option<u32>), ErrorView>((None, None)),
{
}

/// A style of the list has the font and the fill that its tag names, and a style beyond the list has
/// none of the two.
pub proof fn law_parts_of_style(xfs: Seq<TagView>, style: u32)
    ensures
        style >= xfs.len() ==> style_parts(xfs, style) == Ok::<
            (Option<u32>, Option<u32>),
            ErrorView,
        >((None, None)),
        style < xfs.len() ==> {
            let font = number_attribute(xfs[style as int].attributes, utf8("fontId"@));
            let fill = number_attribute(xfs[style as int].attributes, utf8("fillId"@));
            &&& font is Ok && fill is Ok ==> style_parts(xfs, style) == Ok::<
                (Option<u32>, Option<u32>),
                ErrorView,
            >((font->Ok_0, fill->Ok_0))
            &&& font is Err || fill is Err ==> style_parts(xfs, style) == Err::<
                (Option<u32>, Option<u32>),
                ErrorView,
            >(ErrorView::Parse)
        },
{
}

/// A number format that is there keeps its number and leaves the style sheet as it is, and one that
/// is not there gets a number that no format has.
pub proof fn law_format_numbers(styles: Seq<u8>, formats: Seq<TagView>, code: Seq<char>)
    ensures
        format_ensured(styles, formats, code) matches Some(outcome) ==> (
        outcome.result matches Ok(id) ==> format_scan(formats, code) matches Ok(scan) && match scan.found {
            Some(there) => id == there && outcome.styles == styles,
            None => id > scan.largest && id > 163,
        }),
{
    law_largest_format(formats, code);
}

/// The largest number of a format is at least 163, and at least that of every format with a code.
pub proof fn law_largest_format(formats: Seq<TagView>, code: Seq<char>)
    ensures
        format_scan(formats, code) matches Ok(scan) ==> scan.largest >= 163 && forall|k: int|
            0 <= k < formats.len() ==> (number_attribute(
                (#[trigger] formats[k]).attributes,
                utf8("numFmtId"@),
            ) matches Ok(Some(id)) ==> (text_attribute(formats[k].attributes, utf8("formatCode"@)) is Some
                ==> id <= scan.largest)),
    decreases formats.len(),
{
    if formats.len() > 0 {
        let front = formats.drop_last();
        law_largest_format(front, code);
        if let Ok(scan) = format_scan(formats, code) {
            assert forall|k: int| 0 <= k < formats.len() implies (number_attribute(
                (#[trigger] formats[k]).attributes,
                utf8("numFmtId"@),
            ) matches Ok(Some(id)) ==> (text_attribute(formats[k].attributes, utf8("formatCode"@)) is Some
                ==> id <= scan.largest)) by {
                if k < formats.len() - 1 {
                    assert(front[k] == formats[k]);
                } else {
                    assert(formats[k] == formats.last());
                }
            }
        }
    }
}

/// A tag that gives the code `code` the number `id`.
pub open spec fn gives(tag: TagView, code: Seq<char>, id: u32) -> bool {
    &&& number_attribute(tag.attributes, utf8("numFmtId"@)) == Ok::<Option<u32>, ErrorView>(Some(id))
    &&& text_attribute(tag.attributes, utf8("formatCode"@)) == Some(code)
}

/// A format is found where a tag gives its code a number: it is the number of the last such tag.
pub proof fn law_format_found(formats: Seq<TagView>, code: Seq<char>)
    ensures
        format_scan(formats, code) matches Ok(scan) ==> match scan.found {
            Some(id) => exists|k: int|
                0 <= k < formats.len() && #[trigger] gives(formats[k], code, id) && forall|j: int, n: u32|
                    k < j < formats.len() ==> !#[trigger] gives(formats[j], code, n),
            None => forall|j: int, n: u32|
                0 <= j < formats.len() ==> !#[trigger] gives(formats[j], code, n),
        },
        format_scan(formats, code) matches Err(e) ==> e == ErrorView::Parse && exists|k: int|
            0 <= k < formats.len() && number_attribute(
                (#[trigger] formats[k]).attributes,
                utf8("numFmtId"@),
            ) is Err,
    decreases formats.len(),
{
    if formats.len() > 0 {
        let front = formats.drop_last();
        let last = formats.len() - 1;
        law_format_found(front, code);
        assert(formats[last] == formats.last());
        lemma_parse_only(formats.last().attributes, utf8("numFmtId"@));
        match format_scan(formats, code) {
            Ok(scan) => {
                match scan.found {
                    Some(id) => {
                        if gives(formats[last], code, id) {
                            assert forall|j: int, n: u32| last < j < formats.len() implies !#[trigger] gives(
                                formats[j],
                                code,
                                n,
                            ) by {}
                        } else {
                            let k = choose|k: int|
                                0 <= k < front.len() && #[trigger] gives(front[k], code, id)
                                    && forall|j: int, n: u32|
                                    k < j < front.len() ==> !#[trigger] gives(front[j], code, n);
                            assert(formats[k] == front[k]);
                            assert(gives(formats[k], code, id));
                            assert forall|j: int, n: u32| k < j < formats.len() implies !#[trigger] gives(
                                formats[j],
                                code,
                                n,
                            ) by {
                                if j < last {
                                    assert(front[j] == formats[j]);
                                    assert(!gives(front[j], code, n));
                                }
                            }
                        }
                    },
                    None => {
                        assert forall|j: int, n: u32| 0 <= j < formats.len() implies !#[trigger] gives(
                            formats[j],
                            code,
                            n,
                        ) by {
                            if j < last {
                                assert(front[j] == formats[j]);
                                assert(!gives(front[j], code, n));
                            }
                        }
                    },
                }
            },
            Err(e) => {
                if format_scan(front, code) is Err {
                    let k = choose|k: int|
                        0 <= k < front.len() && number_attribute(
                            (#[trigger] front[k]).attributes,
                            utf8("numFmtId"@),
                        ) is Err;
                    assert(formats[k] == front[k]);
                }
            },
        }
    }
}

/// A number that cannot be read is refused in one way.
proof fn lemma_parse_only(a: Seq<Option<AttributeView>>, key: Seq<u8>)
    ensures
        number_attribute(a, key) matches Err(e) ==> e == ErrorView::Parse,
    decreases a.len(),
{
    if a.len() > 0 {
        lemma_parse_only(a.drop_last(), key);
    }
}

/// The largest number of a format is 163, up to which they are taken, or that of a format with a code.
pub proof fn law_largest_format_reached(formats: Seq<TagView>, code: Seq<char>)
    ensures
        format_scan(formats, code) matches Ok(scan) ==> scan.largest == 163 || exists|k: int, text: Seq<char>|
            0 <= k < formats.len() && #[trigger] gives(formats[k], text, scan.largest),
    decreases formats.len(),
{
    if formats.len() > 0 {
        let front = formats.drop_last();
        let last = formats.len() - 1;
        law_largest_format_reached(front, code);
        assert(formats[last] == formats.last());
        if let Ok(scan) = format_scan(formats, code) {
            let before = format_scan(front, code)->Ok_0;
            if scan.largest == before.largest {
                if before.largest != 163 {
                    let (k, text) = choose|k: int, text: Seq<char>|
                        0 <= k < front.len() && #[trigger] gives(front[k], text, before.largest);
                    assert(formats[k] == front[k]);
                    assert(gives(formats[k], text, scan.largest));
                }
            } else {
                let text = text_attribute(formats[last].attributes, utf8("formatCode"@))->0;
                assert(gives(formats[last], text, scan.largest));
            }
        }
    }
}

// ---- styles that are made -----------------------------------------------------------------

/// A style sheet has one list of styles, and `after` has those of `before` and then `tag`.
pub open spec fn grew(before: Seq<u8>, after: Seq<u8>, tag: TagView) -> bool {
    &&& cell_xfs(xml_events(after), true) == cell_xfs(xml_events(before), true).push(tag)
    &&& cell_xfs(xml_events(after), false) == cell_xfs(xml_events(after), true)
    &&& cell_xfs(xml_events(before), false) == cell_xfs(xml_events(before), true)
}

/// A style is read with a number format, a font and a fill.
pub open spec fn reads_as(tag: TagView, format: u32, font: Option<u32>, fill: Option<u32>) -> bool {
    &&& number_attribute(tag.attributes, utf8("numFmtId"@)) == Ok::<Option<u32>, ErrorView>(
        Some(format),
    )
    &&& number_attribute(tag.attributes, utf8("fontId"@)) == Ok::<Option<u32>, ErrorView>(font)
    &&& number_attribute(tag.attributes, utf8("fillId"@)) == Ok::<Option<u32>, ErrorView>(fill)
}

/// Where no style of a list fits, one that fits and comes behind them is the first one.
proof fn lemma_fitting_push(
    xfs: Seq<TagView>,
    tag: TagView,
    format: u32,
    font: Option<u32>,
    fill: Option<u32>,
    i: int,
)
    requires
        0 <= i <= xfs.len() <= u32::MAX,
        fitting_style(xfs, format, font, fill, i) == Some(Ok::<Option<u32>, ErrorView>(None)),
        reads_as(tag, format, font, fill),
    ensures
        fitting_style(xfs.push(tag), format, font, fill, i) == Some(
            Ok::<Option<u32>, ErrorView>(Some(xfs.len() as u32)),
        ),
    decreases xfs.len() - i,
{
    if i < xfs.len() {
        assert(xfs.push(tag)[i] == xfs[i]);
        lemma_fitting_push(xfs, tag, format, font, fill, i + 1);
    } else {
        assert(xfs.push(tag)[i] == tag);
    }
}

/// The style `id` of a list has the font and the fill that are asked for.
pub open spec fn has_parts(
    xfs: Seq<TagView>,
    id: Option<u32>,
    font: Option<u32>,
    fill: Option<u32>,
) -> bool {
    (font is None && fill is None) || (id matches Some(style) && (style_parts(xfs, style) matches Ok(
        (has_font, has_fill),
    ) && (font is Some ==> has_font == font) && (fill is Some ==> has_fill == fill)))
}

/// A style sheet has one list of styles, and what is added for a style is read as it was written: a
/// number format with its number and its code and with no style, and a style as one more, with its
/// number format, its font and its fill.
pub open spec fn is_read(
    styles: Seq<u8>,
    num_fmt: Option<Seq<char>>,
    font: Option<u32>,
    fill: Option<u32>,
) -> bool {
    let xfs = cell_xfs(xml_events(styles), true);
    &&& cell_xfs(xml_events(styles), false) == xfs
    &&& style_ensured(styles, num_fmt, font, fill, None) matches Some(made) ==> (made.result is Ok ==> {
        let middle = format_asked(styles, num_fmt)->0.styles;
        let format = format_asked(styles, num_fmt)->0.result->Ok_0;
        &&& cell_xfs(xml_events(middle), true) == xfs
        &&& cell_xfs(xml_events(middle), false) == xfs
        &&& num_fmt matches Some(code) ==> (format_scan(
            elements(xml_events(made.styles), utf8("numFmt"@)),
            code,
        ) matches Ok(scan) && scan.found == Some(format))
        &&& fitting_style(xfs, format, font, fill, 0) == Some(Ok::<Option<u32>, ErrorView>(None))
            ==> exists|tag: TagView|
            #![trigger reads_as(tag, format, font, fill)]
            grew(middle, made.styles, tag) && reads_as(tag, format, font, fill)
    })
}

/// A style that was asked for has the number format, the font and the fill that were asked for, whether
/// it was there or was made. It was there and the list of styles is what it was, or it was made and stands behind those
/// that there were, which keep their numbers. Asking for it once more gives the same number and changes
/// nothing.
pub proof fn law_style_asked_for(
    styles: Seq<u8>,
    num_fmt: Option<Seq<char>>,
    font: Option<u32>,
    fill: Option<u32>,
)
    requires
        is_read(styles, num_fmt, font, fill),
    ensures
        style_ensured(styles, num_fmt, font, fill, None) matches Some(made) ==> (
        made.result matches Ok(id) ==> {
            let before = cell_xfs(xml_events(styles), true);
            let after = cell_xfs(xml_events(made.styles), true);
            &&& has_parts(after, Some(id), font, fill)
            &&& fits_at(
                after,
                id as int,
                format_asked(styles, num_fmt)->0.result->Ok_0,
                font,
                fill,
            )
            &&& (id < before.len() && after == before) || (id == before.len() && exists|tag: TagView|
                after == #[trigger] before.push(tag))
            &&& forall|k: u32|
                k < before.len() ==> #[trigger] style_parts(after, k) == style_parts(before, k)
            &&& forall|k: Option<u32>, f: Option<u32>, l: Option<u32>| #[trigger]
                has_parts(before, k, f, l) ==> has_parts(after, k, f, l)
            &&& style_ensured(made.styles, num_fmt, font, fill, None) == Some(
                styles_given(made.styles, id),
            )
        }),
{
    let before = cell_xfs(xml_events(styles), true);
    if let Some(made) = style_ensured(styles, num_fmt, font, fill, None) {
        if let Ok(id) = made.result {
            let middle = format_asked(styles, num_fmt)->0.styles;
            let format = format_asked(styles, num_fmt)->0.result->Ok_0;
            let after = cell_xfs(xml_events(made.styles), true);
            law_fitting_style(before, format, font, fill, 0);
            if fitting_style(before, format, font, fill, 0) == Some(
                Ok::<Option<u32>, ErrorView>(None),
            ) {
                let tag = choose|tag: TagView|
                    #![trigger reads_as(tag, format, font, fill)]
                    grew(middle, made.styles, tag) && reads_as(tag, format, font, fill);
                assert(after == before.push(tag));
                assert(id == before.len());
                lemma_fitting_push(before, tag, format, font, fill, 0);
                assert forall|k: u32| k < before.len() implies #[trigger] style_parts(after, k)
                    == style_parts(before, k) by {
                    assert(after[k as int] == before[k as int]);
                }
                assert forall|k: Option<u32>, f: Option<u32>, l: Option<u32>| #[trigger]
                    has_parts(before, k, f, l) implies has_parts(after, k, f, l) by {
                    if let Some(style) = k {
                        if style < before.len() {
                            assert(style_parts(after, style) == style_parts(before, style));
                        }
                    }
                }
            } else {
                assert(fits_at(before, id as int, format, font, fill));
            }
        }
    }
}

/// A number format that was added is found when it is asked for once more, where it is read with its
/// number and its code.
pub proof fn law_format_asked_again(
    styles: Seq<u8>,
    formats: Seq<TagView>,
    code: Seq<char>,
    after: Seq<u8>,
    id: u32,
    tag: TagView,
)
    requires
        format_ensured(styles, formats, code) == Some(styles_given(after, id)),
        number_attribute(tag.attributes, utf8("numFmtId"@)) == Ok::<Option<u32>, ErrorView>(Some(id)),
        text_attribute(tag.attributes, utf8("formatCode"@)) == Some(code),
    ensures
        format_ensured(after, formats.push(tag), code) == Some(styles_given(after, id)),
{
    assert(formats.push(tag).drop_last() =~= formats);
    assert(formats.push(tag).last() == tag);
}

/// The bytes of the tag and the count of the list of styles.
proof fn lemma_list_bytes()
    ensures
        utf8("<cellXfs"@) == seq![60u8, 99, 101, 108, 108, 88, 102, 115],
        utf8("count=\""@) == seq![99u8, 111, 117, 110, 116, 61, 34],
        utf8("\""@) == seq![34u8],
{
    reveal_strlit("<cellXfs");
    reveal_strlit("count=\"");
    reveal_strlit("\"");
    lemma_utf8_ascii("<cellXfs"@);
    lemma_utf8_ascii("count=\""@);
    lemma_utf8_ascii("\""@);
    assert(utf8("<cellXfs"@) =~= seq![60u8, 99, 101, 108, 108, 88, 102, 115]);
    assert(utf8("count=\""@) =~= seq![99u8, 111, 117, 110, 116, 61, 34]);
    assert(utf8("\""@) =~= seq![34u8]);
}

/// Adding a style keeps every byte of the style sheet but the count: the style stands in front of the
/// end of the list, and the count is one more. The count stands from `start` to `stop`, in front of the
/// end of the list.
pub proof fn law_style_keeps_bytes(styles: Seq<u8>, xf: Seq<char>, pos: int, start: int, stop: int)
    requires
        find(styles, utf8("<cellXfs"@)) == Some(pos),
        find_from(styles, utf8("count=\""@), pos) == Some(start - utf8("count=\""@).len()),
        find_from(styles, utf8("\""@), start) == Some(stop),
        find(styles, utf8("</cellXfs>"@)) matches Some(end) ==> stop < end,
    ensures
        style_added(styles, xf) matches Some(added) ==> (added.result is Ok ==> {
            let end = find(styles, utf8("</cellXfs>"@))->0;
            let n = u32_of_bytes(styles.subrange(start, stop));
            &&& n is Some
            &&& n->0 < u32::MAX
            &&& added.styles == styles.take(start) + utf8(decimal((n->0 + 1) as nat))
                + styles.subrange(stop, end) + utf8(xf) + styles.skip(end)
            &&& count_in(styles, "<cellXfs"@, "count=\""@) == n
            &&& count_in(added.styles, "<cellXfs"@, "count=\""@) == Some((n->0 + 1) as u32)
        }),
{
    if let Some(added) = style_added(styles, xf) {
        if added.result is Ok {
            let tag = utf8("<cellXfs"@);
            let attr = utf8("count=\""@);
            let quote = utf8("\""@);
            let new = utf8(xf);
            let end = find(styles, utf8("</cellXfs>"@))->0;
            let longer = insert(styles, end, new);
            let a = start - attr.len();
            lemma_list_bytes();
            lemma_find_from(styles, tag, 0);
            lemma_find_from(styles, attr, pos);
            lemma_find_from(styles, quote, start);
            lemma_find_from(styles, utf8("</cellXfs>"@), 0);
            assert(pos + tag.len() <= a) by {
                if a < pos + tag.len() {
                    lemma_byte_at(styles, tag, pos, a - pos);
                    lemma_byte_at(styles, attr, a, 0);
                    lemma_byte_at(styles, attr, a, 1);
                    lemma_byte_at(styles, tag, pos, 2);
                }
            }
            lemma_found_before(styles, end, end, new, tag, 0, pos);
            lemma_found_before(styles, end, end, new, attr, pos, a);
            lemma_found_before(styles, end, end, new, quote, start, stop);
            law_count_grows(longer, "<cellXfs"@, "count=\""@);
            assert(longer.subrange(start, stop) =~= styles.subrange(start, stop));
            let n = u32_of_bytes(styles.subrange(start, stop));
            let digits = utf8(decimal((n->0 + 1) as nat));
            assert(replace(longer, start, stop, digits) =~= styles.take(start) + digits
                + styles.subrange(stop, end) + new + styles.skip(end));
        }
    }
}

} // verus!
