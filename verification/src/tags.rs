//! Tags in a document, and the references that name rows and cells.

use vstd::prelude::*;
use vstd::string::*;
use crate::bytes::{
    copy_range, find, find_from, insert, insert_bytes, lemma_find_from, position, replace,
    replace_bytes, same_bytes,
};
use crate::error::{ErrorView, XlsxError};
use crate::text::{decode, join3, lemma_utf8_ascii, locate, parse_u32, text_of, u32_of, utf8};

verus! {

// ---- one tag ------------------------------------------------------------------------------

/// Where the tag that starts at `at` ends: behind the next `>`, or with the document.
pub open spec fn tag_stop(xml: Seq<u8>, at: int) -> int {
    match find_from(xml, utf8(">"@), at) {
        Some(close) => close + utf8(">"@).len(),
        None => xml.len() as int,
    }
}

/// The tag that starts at `at`.
pub open spec fn tag_at(xml: Seq<u8>, at: int) -> Seq<u8> {
    xml.subrange(at, tag_stop(xml, at))
}

/// A tag ends.
pub open spec fn is_ended(tag: Seq<u8>) -> bool {
    tag.len() > 0 && tag.last() == 62
}

/// A tag is an element by itself.
pub open spec fn is_closed(tag: Seq<u8>) -> bool {
    tag.len() >= 2 && tag.last() == 62 && tag[tag.len() - 2] == 47
}

/// The value of the attribute of a tag, where `head` is its name between a space and `="`.
pub open spec fn value_in_tag(tag: Seq<u8>, head: Seq<char>) -> Option<Seq<u8>> {
    match find(tag, utf8(head)) {
        None => None,
        Some(at) => {
            let start = at + utf8(head).len();
            match find_from(tag, utf8("\""@), start) {
                None => None,
                Some(end) => Some(tag.subrange(start, end)),
            }
        },
    }
}

/// The attribute `r` of a tag has the value `value`.
pub open spec fn refers_to(tag: Seq<u8>, value: Seq<char>) -> bool {
    value_in_tag(tag, " r=\""@) == Some(utf8(value))
}

/// Where the element that starts at `start` ends: with its tag if that closes itself, or else behind
/// the next `close`.
pub open spec fn element_stop(xml: Seq<u8>, start: int, close: Seq<char>) -> Option<int> {
    let stop = tag_stop(xml, start);
    if is_closed(tag_at(xml, start)) {
        Some(stop)
    } else {
        match find_from(xml, utf8(close), stop) {
            Some(end) => Some(end + utf8(close).len()),
            None => None,
        }
    }
}

/// The first tag at or after `i` that starts with `open` and refers to `value`.
pub open spec fn tag_of(xml: Seq<u8>, open: Seq<char>, value: Seq<char>, i: int) -> Option<int>
    decreases xml.len() + 1 - i,
{
    if i < 0 {
        None
    } else {
        match find_from(xml, utf8(open), i) {
            None => None,
            Some(at) => {
                proof {
                    lemma_find_from(xml, utf8(open), i);
                }
                if refers_to(tag_at(xml, at), value) {
                    Some(at)
                } else {
                    tag_of(xml, open, value, at + 1)
                }
            },
        }
    }
}

/// The byte of `>`.
pub proof fn lemma_bracket()
    ensures
        utf8(">"@).len() == 1,
        utf8(">"@)[0] == 62,
{
    reveal_strlit(">");
    lemma_utf8_ascii(">"@);
}

/// A tag ends behind its start and within the document.
pub proof fn lemma_tag_stop(xml: Seq<u8>, at: int)
    requires
        0 <= at <= xml.len(),
    ensures
        at <= tag_stop(xml, at) <= xml.len(),
        at < xml.len() ==> at < tag_stop(xml, at),
{
    lemma_find_from(xml, utf8(">"@), at);
    lemma_bracket();
}

/// What `tag_of` gives is a place in the document.
pub proof fn lemma_tag_of(xml: Seq<u8>, open: Seq<char>, value: Seq<char>, i: int)
    requires
        0 <= i,
    ensures
        tag_of(xml, open, value, i) matches Some(at) ==> {
            &&& i <= at
            &&& crate::bytes::occurs_at(xml, utf8(open), at)
            &&& refers_to(tag_at(xml, at), value)
        },
    decreases xml.len() + 1 - i,
{
    lemma_find_from(xml, utf8(open), i);
    if let Some(at) = find_from(xml, utf8(open), i) {
        if !refers_to(tag_at(xml, at), value) {
            lemma_tag_of(xml, open, value, at + 1);
        }
    }
}

/// Where the tag that starts at `at` ends.
pub fn stop_of_tag(xml: &[u8], at: usize) -> (stop: usize)
    requires
        at <= xml@.len(),
    ensures
        stop == tag_stop(xml@, at as int),
        at <= stop <= xml@.len(),
{
    proof {
        lemma_tag_stop(xml@, at as int);
    }
    match locate(xml, ">", at) {
        Some(close) => close + ">".len(),
        None => xml.len(),
    }
}

/// The tag that starts at `at`.
pub fn copy_tag(xml: &[u8], at: usize) -> (tag: Vec<u8>)
    requires
        at <= xml@.len(),
    ensures
        tag@ == tag_at(xml@, at as int),
{
    copy_range(xml, at, stop_of_tag(xml, at))
}

/// Whether a tag is an element by itself.
pub fn closes_itself(tag: &[u8]) -> (closed: bool)
    ensures
        closed == is_closed(tag@),
{
    tag.len() >= 2 && tag[tag.len() - 1] == 62 && tag[tag.len() - 2] == 47
}

/// Whether a tag ends.
pub fn ends(tag: &[u8]) -> (ended: bool)
    ensures
        ended == is_ended(tag@),
{
    tag.len() > 0 && tag[tag.len() - 1] == 62
}

/// The first tag at or after `from` that starts with `open` and refers to `value`.
pub fn find_tag_of(xml: &[u8], open: &str, value: &str, from: usize) -> (found: Option<usize>)
    requires
        from <= xml@.len(),
        utf8(open@).len() > 0,
    ensures
        position(found) == tag_of(xml@, open@, value@, from as int),
        found matches Some(at) ==> from <= at < xml@.len(),
{
    let mut i: usize = from;
    loop
        invariant
            from <= i <= xml@.len(),
            utf8(open@).len() > 0,
            tag_of(xml@, open@, value@, from as int) == tag_of(xml@, open@, value@, i as int),
        decreases xml@.len() - i,
    {
        let at: usize = match locate(xml, open, i) {
            None => {
                return None;
            },
            Some(at) => at,
        };
        let tag = copy_tag(xml, at);
        if let Some(found) = find_value(tag.as_slice(), " r=\"") {
            if same_bytes(found.as_slice(), value.as_bytes()) {
                return Some(at);
            }
        }
        i = at + 1;
    }
}

/// Where the element that starts at `start` ends.
pub fn stop_of_element(xml: &[u8], start: usize, close: &str) -> (stop: Option<usize>)
    requires
        start <= xml@.len(),
    ensures
        position(stop) == element_stop(xml@, start as int, close@),
        stop matches Some(at) ==> start <= at <= xml@.len(),
{
    let stop: usize = stop_of_tag(xml, start);
    let tag = copy_tag(xml, start);
    if closes_itself(tag.as_slice()) {
        return Some(stop);
    }
    match locate(xml, close, stop) {
        Some(end) => Some(end + close.len()),
        None => None,
    }
}

/// The value of the attribute of a tag, where `head` is its name between a space and `="`.
pub fn find_value(tag: &[u8], head: &str) -> (value: Option<Vec<u8>>)
    ensures
        match value {
            Some(v) => value_in_tag(tag@, head@) == Some(v@),
            None => value_in_tag(tag@, head@) is None,
        },
{
    match locate(tag, head, 0) {
        None => None,
        Some(at) => {
            let start: usize = at + head.len();
            match locate(tag, "\"", start) {
                None => None,
                Some(end) => Some(copy_range(tag, start, end)),
            }
        },
    }
}

// ---- attributes ---------------------------------------------------------------------------

/// A tag with an attribute, where `head` is its name between a space and `="`: the value that it has
/// is replaced, and otherwise the attribute goes to the end of the tag. `None` stands for a value
/// without a quote behind it, and for too short a tag.
pub open spec fn tag_with_attribute(tag: Seq<u8>, head: Seq<char>, value: Seq<char>) -> Option<
    Seq<u8>,
> {
    match find(tag, utf8(head)) {
        Some(at) => {
            let start = at + utf8(head).len();
            match find_from(tag, utf8("\""@), start) {
                None => None,
                Some(end) => Some(replace(tag, start, end, utf8(value))),
            }
        },
        None => if tag.len() < 2 {
            None
        } else {
            let at = if tag[tag.len() - 2] == 47 {
                tag.len() - 2
            } else {
                tag.len() - 1
            };
            Some(insert(tag, at, utf8(head + value + "\""@)))
        },
    }
}

/// The style that a tag has, where `head` is the attribute's name between a space and `="`, and zero
/// for one that is no number.
pub open spec fn style_in_tag(tag: Seq<u8>, head: Seq<char>) -> Result<Option<u32>, ErrorView> {
    match value_in_tag(tag, head) {
        None => Ok(None),
        Some(digits) => match text_of(digits) {
            None => Err(ErrorView::Utf8),
            Some(text) => Ok(
                Some(
                    match u32_of(text) {
                        Some(id) => id,
                        None => 0,
                    },
                ),
            ),
        },
    }
}

/// Sets an attribute of a tag, or gives `None` where its value has no quote behind it or the tag is
/// too short.
pub fn try_insert_or_replace_attr(tag: &mut Vec<u8>, head: &str, value: &str) -> (done: Option<()>)
    ensures
        match tag_with_attribute(old(tag)@, head@, value@) {
            None => done is None && final(tag)@ == old(tag)@,
            Some(set) => done is Some && final(tag)@ == set,
        },
{
    let total: usize = tag.len();
    if let Some(at) = locate(tag.as_slice(), head, 0) {
        let start: usize = at + head.len();
        return match locate(tag.as_slice(), "\"", start) {
            None => None,
            Some(end) => {
                replace_bytes(tag, start, end, value.as_bytes());
                Some(())
            },
        };
    }
    if total < 2 {
        return None;
    }
    let at: usize = if tag[total - 2] == 47 {
        total - 2
    } else {
        total - 1
    };
    let attribute = join3(head, value, "\"");
    insert_bytes(tag, at, attribute.as_str().as_bytes());
    Some(())
}

/// The style that a tag has.
pub fn find_style(tag: &[u8], head: &str) -> (style: Result<Option<u32>, XlsxError>)
    ensures
        style_in_tag(tag@, head@) == crate::error::result_view(style),
{
    match find_value(tag, head) {
        None => Ok(None),
        Some(digits) => match decode(digits.as_slice()) {
            Err(e) => Err(XlsxError::Utf8(e)),
            Ok(text) => match parse_u32(text) {
                Ok(id) => Ok(Some(id)),
                Err(_) => Ok(Some(0)),
            },
        },
    }
}

} // verus!
