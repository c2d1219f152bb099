//! Counters in a document.

use vstd::prelude::*;
use vstd::string::*;
use crate::bytes::{copy_range, find, find_from, lemma_find_from, replace, replace_bytes};
use crate::error::{ErrorView, XlsxError};
use crate::text::{decimal, decimal_text, decode, locate, parse_u32, text_of, u32_of, utf8};

verus! {

/// A document in which the number in the first `attr` behind the first `tag` is one larger, or the
/// error for which it is left as it was. `None` stands for a number without a quote behind it, or
/// one that cannot grow.
pub open spec fn count_bumped(xml: Seq<u8>, tag: Seq<char>, attr: Seq<char>) -> Option<
    Result<Seq<u8>, ErrorView>,
> {
    match find(xml, utf8(tag)) {
        None => Some(Err(ErrorView::AttributeNotFound("count"@))),
        Some(pos) => match find_from(xml, utf8(attr), pos) {
            None => Some(Err(ErrorView::AttributeNotFound("count"@))),
            Some(a) => {
                let start = a + utf8(attr).len();
                match find_from(xml, utf8("\""@), start) {
                    None => None,
                    Some(end) => match text_of(xml.subrange(start, end)) {
                        None => Some(Err(ErrorView::Utf8)),
                        Some(text) => match u32_of(text) {
                            None => Some(Err(ErrorView::Parse)),
                            Some(n) => if n == u32::MAX {
                                None
                            } else {
                                Some(Ok(replace(xml, start, end, utf8(decimal((n + 1) as nat)))))
                            },
                        },
                    },
                }
            },
        },
    }
}

/// What stands in front of the tag stays as it is when its number grows.
pub proof fn lemma_count_bumped(xml: Seq<u8>, tag: Seq<char>, attr: Seq<char>)
    ensures
        count_bumped(xml, tag, attr) matches Some(Ok(bumped)) ==> {
            &&& find(xml, utf8(tag)) is Some
            &&& 0 <= find(xml, utf8(tag))->0 <= bumped.len()
            &&& bumped.take(find(xml, utf8(tag))->0) == xml.take(find(xml, utf8(tag))->0)
        },
{
    lemma_find_from(xml, utf8(tag), 0);
    if let Some(pos) = find(xml, utf8(tag)) {
        lemma_find_from(xml, utf8(attr), pos);
        if let Some(a) = find_from(xml, utf8(attr), pos) {
            let start = a + utf8(attr).len();
            lemma_find_from(xml, utf8("\""@), start);
            if let Some(Ok(bumped)) = count_bumped(xml, tag, attr) {
                assert(bumped.take(pos) =~= xml.take(pos));
            }
        }
    }
}

/// Makes the number in the first `attr` behind the first `tag` one larger, or gives `None` where
/// there is no quote behind it or it cannot grow.
pub fn try_bump_count(xml: &mut Vec<u8>, tag: &str, attr: &str) -> (result: Option<
    Result<(), XlsxError>,
>)
    ensures
        match count_bumped(old(xml)@, tag@, attr@) {
            None => result is None && final(xml)@ == old(xml)@,
            Some(Err(e)) => (result matches Some(Err(r)) && r@ == e) && final(xml)@ == old(xml)@,
            Some(Ok(bumped)) => (result matches Some(Ok(_))) && final(xml)@ == bumped,
        },
{
    let pos: usize = match locate(xml.as_slice(), tag, 0) {
        None => {
            return Some(Err(XlsxError::AttributeNotFound { attribute: "count".to_owned() }));
        },
        Some(pos) => pos,
    };
    let at: usize = match locate(xml.as_slice(), attr, pos) {
        None => {
            return Some(Err(XlsxError::AttributeNotFound { attribute: "count".to_owned() }));
        },
        Some(at) => at,
    };
    let start: usize = at + attr.len();
    let end: usize = match locate(xml.as_slice(), "\"", start) {
        None => {
            return None;
        },
        Some(end) => end,
    };
    let digits = copy_range(xml.as_slice(), start, end);
    match decode(digits.as_slice()) {
        Err(e) => Some(Err(XlsxError::Utf8(e))),
        Ok(text) => match parse_u32(text) {
            Err(e) => Some(Err(XlsxError::Parse(e))),
            Ok(n) => {
                if n == u32::MAX {
                    return None;
                }
                let next = decimal_text(n as u64 + 1);
                replace_bytes(xml, start, end, next.as_str().as_bytes());
                Some(Ok(()))
            },
        },
    }
}

/// Makes the number in the first `attr` behind the first `tag` one larger.
pub fn bump_count(xml: &mut Vec<u8>, tag: &str, attr: &str) -> (result: Result<(), XlsxError>)
    requires
        count_bumped(old(xml)@, tag@, attr@) is Some,
    ensures
        match count_bumped(old(xml)@, tag@, attr@)->0 {
            Err(e) => (result matches Err(r) && r@ == e) && final(xml)@ == old(xml)@,
            Ok(bumped) => result is Ok && final(xml)@ == bumped,
        },
{
    try_bump_count(xml, tag, attr).unwrap()
}

} // verus!
