//! Where tags stand in a document that was put together from pieces.

use vstd::prelude::*;
use vstd::utf8::*;
use crate::bytes::{occurs_at, replace};
use crate::text::utf8;
use crate::xml::{escaped, escaped_char};

verus! {

// ---- bytes of a text ----------------------------------------------------------------------

/// The bytes of a character outside of ASCII are not ASCII, and those of one within are the
/// character.
proof fn lemma_char_bytes(c: char)
    ensures
        encode_scalar(c as u32).len() > 0,
        (c as u32) < 128 ==> encode_scalar(c as u32) == seq![c as u8],
        (c as u32) >= 128 ==> forall|i: int|
            0 <= i < encode_scalar(c as u32).len() ==> #[trigger] encode_scalar(c as u32)[i] >= 128,
{
    let s = c as u32;
    if s < 128 {
        assert((s & 0x7F) as u8 == s as u8) by (bit_vector)
            requires
                s < 128,
        ;
        assert(encode_scalar(s) =~= seq![c as u8]);
    } else {
        assert(0xC0u8 | ((s >> 6) & 0x1F) as u8 >= 128) by (bit_vector);
        assert(0xE0u8 | ((s >> 12) & 0x0F) as u8 >= 128) by (bit_vector);
        assert(0xF0u8 | ((s >> 18) & 0x7) as u8 >= 128) by (bit_vector);
        assert(0x80u8 | (s & 0x3F) as u8 >= 128) by (bit_vector);
        assert(0x80u8 | ((s >> 6) & 0x3F) as u8 >= 128) by (bit_vector);
        assert(0x80u8 | ((s >> 12) & 0x3F) as u8 >= 128) by (bit_vector);
    }
}

/// The bytes of a character are not another ASCII character.
proof fn lemma_other_char(a: char, b: char)
    requires
        a != b,
        (b as u32) < 128,
    ensures
        forall|i: int|
            0 <= i < encode_scalar(a as u32).len() ==> #[trigger] encode_scalar(a as u32)[i] != b as u8,
{
    lemma_char_bytes(a);
}

/// An ASCII character that a text does not hold is not among its bytes.
pub proof fn lemma_no_byte(text: Seq<char>, c: char)
    requires
        (c as u32) < 128,
        forall|i: int| 0 <= i < text.len() ==> #[trigger] text[i] != c,
    ensures
        forall|i: int| 0 <= i < utf8(text).len() ==> #[trigger] utf8(text)[i] != c as u8,
    decreases text.len(),
{
    if text.len() > 0 {
        let rest = text.drop_first();
        assert forall|i: int| 0 <= i < rest.len() implies #[trigger] rest[i] != c by {
            assert(rest[i] == text[i + 1]);
        }
        lemma_no_byte(rest, c);
        assert(text[0] != c);
        lemma_other_char(text[0], c);
        let head = encode_scalar(text[0] as u32);
        assert(utf8(text) == head + utf8(rest));
        assert forall|i: int| 0 <= i < utf8(text).len() implies #[trigger] utf8(text)[i]
            != c as u8 by {
            if i < head.len() {
                assert(utf8(text)[i] == head[i]);
            } else {
                assert(utf8(text)[i] == utf8(rest)[i - head.len()]);
            }
        }
    }
}

/// Text that is escaped holds no character that starts or ends a tag or a quoted value.
pub proof fn law_escaped_is_plain(text: Seq<char>)
    ensures
        forall|i: int|
            0 <= i < escaped(text).len() ==> {
                &&& #[trigger] escaped(text)[i] != '<'
                &&& escaped(text)[i] != '>'
                &&& escaped(text)[i] != '"'
                &&& escaped(text)[i] != '\''
            },
    decreases text.len(),
{
    if text.len() > 0 {
        law_escaped_is_plain(text.drop_last());
        reveal_strlit("&lt;");
        reveal_strlit("&gt;");
        reveal_strlit("&amp;");
        reveal_strlit("&apos;");
        reveal_strlit("&quot;");
        let front = escaped(text.drop_last());
        let last = escaped_char(text.last());
        assert forall|i: int| 0 <= i < escaped(text).len() implies {
            &&& #[trigger] escaped(text)[i] != '<'
            &&& escaped(text)[i] != '>'
            &&& escaped(text)[i] != '"'
            &&& escaped(text)[i] != '\''
        } by {
            if i < front.len() {
                assert(escaped(text)[i] == front[i]);
            } else {
                assert(escaped(text)[i] == last[i - front.len()]);
            }
        }
    }
}

/// Text without characters that mean something in XML is left as it is.
pub proof fn law_plain_is_not_escaped(text: Seq<char>)
    requires
        forall|i: int|
            0 <= i < text.len() ==> {
                &&& #[trigger] text[i] != '<'
                &&& text[i] != '>'
                &&& text[i] != '&'
                &&& text[i] != '\''
                &&& text[i] != '"'
            },
    ensures
        escaped(text) == text,
    decreases text.len(),
{
    if text.len() > 0 {
        let front = text.drop_last();
        assert forall|i: int| 0 <= i < front.len() implies {
            &&& #[trigger] front[i] != '<'
            &&& front[i] != '>'
            &&& front[i] != '&'
            &&& front[i] != '\''
            &&& front[i] != '"'
        } by {
            assert(front[i] == text[i]);
        }
        law_plain_is_not_escaped(front);
        assert(text[text.len() - 1] == text.last());
        assert(escaped(text) =~= text);
    }
}

// ---- tags in pieces -----------------------------------------------------------------------

/// What a search can look for: it starts with `<`, holds no other `<`, and no `>` but at its end.
pub open spec fn tag_like(needle: Seq<u8>) -> bool {
    &&& needle.len() > 0
    &&& needle[0] == 60
    &&& forall|i: int| 0 < i < needle.len() ==> #[trigger] needle[i] != 60
    &&& forall|i: int| 0 <= i < needle.len() - 1 ==> #[trigger] needle[i] != 62
}

/// What is put into a document: it starts with `<` and ends with `>`.
pub open spec fn element_like(new: Seq<u8>) -> bool {
    new.len() > 0 && new[0] == 60 && new.last() == 62
}

/// A byte of a place where a needle stands.
pub proof fn lemma_byte_at(hay: Seq<u8>, needle: Seq<u8>, p: int, i: int)
    requires
        occurs_at(hay, needle, p),
        0 <= i < needle.len(),
    ensures
        hay[p + i] == needle[i],
{
    assert(hay.subrange(p, p + needle.len())[i] == needle[i]);
}

/// A place in front of what was replaced.
pub proof fn lemma_occurs_before(
    hay: Seq<u8>,
    from: int,
    to: int,
    new: Seq<u8>,
    needle: Seq<u8>,
    p: int,
)
    requires
        0 <= from <= to <= hay.len(),
        0 <= p,
        p + needle.len() <= from,
    ensures
        occurs_at(replace(hay, from, to, new), needle, p) == occurs_at(hay, needle, p),
{
    assert(replace(hay, from, to, new).subrange(p, p + needle.len()) =~= hay.subrange(
        p,
        p + needle.len(),
    ));
}

/// A place behind what was replaced.
pub proof fn lemma_occurs_behind(
    hay: Seq<u8>,
    from: int,
    to: int,
    new: Seq<u8>,
    needle: Seq<u8>,
    p: int,
)
    requires
        0 <= from <= to <= hay.len(),
        from + new.len() <= p,
    ensures
        occurs_at(replace(hay, from, to, new), needle, p) == occurs_at(
            hay,
            needle,
            p - new.len() - from + to,
        ),
{
    let q = p - new.len() - from + to;
    let whole = replace(hay, from, to, new);
    if p + needle.len() <= whole.len() {
        assert(whole.subrange(p, p + needle.len()) =~= hay.subrange(q, q + needle.len()));
    }
}

/// A place within what was put in.
pub proof fn lemma_occurs_within(
    hay: Seq<u8>,
    from: int,
    to: int,
    new: Seq<u8>,
    needle: Seq<u8>,
    p: int,
)
    requires
        0 <= from <= to <= hay.len(),
        from <= p,
        p + needle.len() <= from + new.len(),
    ensures
        occurs_at(replace(hay, from, to, new), needle, p) == occurs_at(new, needle, p - from),
{
    assert(replace(hay, from, to, new).subrange(p, p + needle.len()) =~= new.subrange(
        p - from,
        p - from + needle.len(),
    ));
}

/// A tag does not reach over an end of an element that was put in.
pub proof fn lemma_occurs_apart(
    hay: Seq<u8>,
    from: int,
    to: int,
    new: Seq<u8>,
    needle: Seq<u8>,
    p: int,
)
    requires
        0 <= from <= to <= hay.len(),
        element_like(new),
        tag_like(needle),
        occurs_at(replace(hay, from, to, new), needle, p),
    ensures
        p + needle.len() <= from || (from <= p && p + needle.len() <= from + new.len()) || from
            + new.len() <= p,
{
    let whole = replace(hay, from, to, new);
    if p < from && from < p + needle.len() {
        lemma_byte_at(whole, needle, p, from - p);
        assert(whole[from] == new[0]);
    }
    let last = from + new.len() - 1;
    if p <= last && last + 1 < p + needle.len() {
        lemma_byte_at(whole, needle, p, last - p);
        assert(whole[last] == new.last());
    }
}

} // verus!
