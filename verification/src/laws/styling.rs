//! The style that a cell was given.

use vstd::prelude::*;
use crate::bytes::{
    find, find_from, insert, lemma_find_from, lemma_find_from_is, occurs_at, replace,
};
use crate::coord::is_cell_name;
use crate::error::ErrorView;
use crate::laws::bodies::{
    body_holds, body_with, body_without, cell_text, is_body, is_head, lemma_body_insert,
    lemma_cell_holds_no_row, lemma_cell_pieces, lemma_cell_set, lemma_in_body, lemma_row_without,
};
use crate::laws::cells::{
    body_of, can_hold, keeps_row, lemma_around_row, lemma_bare_body, lemma_digits, lemma_inserted,
    lemma_new_body, lemma_replaced, lemma_row_made, lemma_row_parts, lemma_row_there, new_head,
    row_text,
};
use crate::laws::marks::{law_attribute_overwritten, law_attribute_read_back};
use crate::laws::neighbours::{keeps_others, lemma_keeps_others, lemma_set_neighbour};
use crate::laws::pieces::lemma_byte_at;
use crate::laws::rows::{lemma_is_between, lemma_other_row};
use crate::laws::shapes::{
    lemma_ascii_tag, lemma_cell_name_chars, lemma_not_in_tag, lemma_reference, lemma_refers,
    lemma_sheet_ends, lemma_tag_tidy,
};
use crate::laws::tidy::{
    is_element, lemma_element_end, lemma_find_back, lemma_find_pieces, lemma_occurs_back,
    lemma_tag_behind, lemma_tag_in_front, lemma_tag_of_pieces, lemma_tidy_join, lemma_tidy_split,
    lemma_tidy_tag, tidy,
};
use crate::paint::{cell_painted, cell_styled, style_of, tags_painted};
use crate::pattern::MatchView;
use crate::sheet::{
    coord_row, lemma_opens, lemma_quote, row_found, row_opened, row_place, written_cell, SheetView,
};
use crate::tags::{
    element_stop, is_closed, lemma_tag_of, refers_to, style_in_tag, tag_at, tag_of, tag_stop,
    tag_with_attribute, value_in_tag,
};
use crate::text::{
    decimal, is_digit, is_letter, lemma_utf8_ascii, lemma_utf8_concat, lemma_utf8_injective, utf8,
};

verus! {

/// The bytes of ` s="`.
pub proof fn lemma_style_head()
    ensures
        utf8(" s=\""@) == seq![32u8, 115u8, 61u8, 34u8],
{
    reveal_strlit(" s=\"");
    lemma_utf8_ascii(" s=\""@);
    assert(utf8(" s=\""@) =~= seq![32u8, 115u8, 61u8, 34u8]);
}

/// The style that a tag was given is the one that is read back.
pub proof fn law_tag_style_read_back(tag: Seq<u8>, style: u32)
    ensures
        tag_with_attribute(tag, " s=\""@, decimal(style as nat)) matches Some(set) ==> style_in_tag(
            set,
            " s=\""@,
        ) == Ok::<Option<u32>, ErrorView>(Some(style)),
{
    lemma_style_head();
    lemma_digits(style as nat);
    law_attribute_read_back(tag, " s=\""@, decimal(style as nat));
}

// ---- a tag keeps its reference ------------------------------------------------------------

/// The first reference in a tag with a value in it that holds no space.
proof fn lemma_reference_beside(u: Seq<u8>, v: Seq<u8>, w: Seq<u8>)
    requires
        u.len() >= 4,
        u[u.len() - 1] == 34,
        u[u.len() - 2] == 61,
        u[u.len() - 3] == 115,
        forall|k: int| 0 <= k < v.len() ==> #[trigger] v[k] != 32,
    ensures
        find(u + v + w, utf8(" r=\""@)) == (match find(u, utf8(" r=\""@)) {
            Some(p) => Some(p),
            None => match find(w, utf8(" r=\""@)) {
                Some(p) => Some(u.len() + v.len() + p),
                None => None,
            },
        }),
{
    let head = utf8(" r=\""@);
    let x = u + v + w;
    let n = (u.len() + v.len()) as int;
    lemma_reference();
    lemma_find_from(u, head, 0);
    lemma_find_from(w, head, 0);
    lemma_find_from(x, head, 0);
    assert forall|p: int| 0 <= p < u.len() implies #[trigger] occurs_at(x, head, p) == occurs_at(
        u,
        head,
        p,
    ) by {
        if p + 4 <= u.len() {
            assert(x.subrange(p, p + 4) =~= u.subrange(p, p + 4));
        } else if occurs_at(x, head, p) {
            lemma_byte_at(x, head, p, 0);
            assert(x[p] == u[p]);
        }
    }
    assert forall|p: int| u.len() <= p < n implies !#[trigger] occurs_at(x, head, p) by {
        if occurs_at(x, head, p) {
            lemma_byte_at(x, head, p, 0);
            assert(x[p] == v[p - u.len()]);
        }
    }
    assert forall|p: int| n <= p implies #[trigger] occurs_at(x, head, p) == occurs_at(
        w,
        head,
        p - n,
    ) by {
        if p - n + 4 <= w.len() {
            assert(x.subrange(p, p + 4) =~= w.subrange(p - n, p - n + 4));
        }
    }
    match find(u, head) {
        Some(p) => {
            assert(occurs_at(x, head, p));
            lemma_find_from_is(x, head, 0, p);
        },
        None => match find(w, head) {
            Some(p) => {
                assert(occurs_at(x, head, n + p));
                assert forall|q: int| 0 <= q < n + p implies !#[trigger] occurs_at(x, head, q) by {
                    if q >= n {
                        assert(!occurs_at(w, head, q - n));
                    }
                }
                lemma_find_from_is(x, head, 0, n + p);
            },
            None => {
                if let Some(q) = find(x, head) {
                    if q >= n {
                        assert(!occurs_at(w, head, q - n));
                    }
                }
            },
        },
    }
}

/// What a tag refers to, with a value in it that holds no space.
#[verifier::spinoff_prover]
#[verifier::rlimit(60)]
proof fn lemma_value_beside(u: Seq<u8>, v: Seq<u8>, new: Seq<u8>, w: Seq<u8>)
    requires
        u.len() >= 4,
        u[u.len() - 1] == 34,
        u[u.len() - 2] == 61,
        u[u.len() - 3] == 115,
        u[u.len() - 4] == 32,
        forall|k: int| 0 <= k < v.len() ==> #[trigger] v[k] != 32,
        forall|k: int| 0 <= k < new.len() ==> #[trigger] new[k] != 32,
    ensures
        value_in_tag(u + new + w, " r=\""@) == value_in_tag(u + v + w, " r=\""@),
{
    let head = utf8(" r=\""@);
    let quote = utf8("\""@);
    let x = u + v + w;
    let y = u + new + w;
    lemma_reference();
    lemma_quote();
    lemma_reference_beside(u, v, w);
    lemma_reference_beside(u, new, w);
    lemma_find_from(u, head, 0);
    lemma_find_from(w, head, 0);
    match find(u, head) {
        Some(p) => {
            lemma_byte_at(u, head, p, 1);
            let start = p + 4;
            assert(start < u.len()) by {
                if start == u.len() {
                    assert(u[p + 1] == 114);
                }
            }
            lemma_find_from(u, quote, start);
            assert(u.subrange(u.len() - 1, u.len() as int) =~= quote);
            assert(occurs_at(u, quote, u.len() - 1));
            let end = find_from(u, quote, start)->0;
            lemma_quote_in_front(u, v + w, start, end);
            lemma_quote_in_front(u, new + w, start, end);
            assert(x =~= u + (v + w));
            assert(y =~= u + (new + w));
            assert(x.subrange(start, end) =~= u.subrange(start, end));
            assert(y.subrange(start, end) =~= u.subrange(start, end));
        },
        None => {
            if let Some(p) = find(w, head) {
                lemma_find_back(u + v, w, quote, p + 4);
                lemma_find_back(u + new, w, quote, p + 4);
                lemma_find_from(w, quote, p + 4);
                if let Some(end) = find_from(w, quote, p + 4) {
                    assert(x.subrange((u + v).len() + p + 4, (u + v).len() + end) =~= w.subrange(
                        p + 4,
                        end,
                    ));
                    assert(y.subrange((u + new).len() + p + 4, (u + new).len() + end) =~= w.subrange(
                        p + 4,
                        end,
                    ));
                }
            }
        },
    }
}

/// A quote in the first of two pieces.
proof fn lemma_quote_in_front(a: Seq<u8>, b: Seq<u8>, start: int, end: int)
    requires
        0 <= start,
        find_from(a, utf8("\""@), start) == Some(end),
    ensures
        find_from(a + b, utf8("\""@), start) == Some(end),
{
    let quote = utf8("\""@);
    let x = a + b;
    lemma_quote();
    lemma_find_from(a, quote, start);
    assert(x.subrange(end, end + 1) =~= a.subrange(end, end + 1));
    assert forall|q: int| start <= q < end implies !#[trigger] occurs_at(x, quote, q) by {
        if occurs_at(x, quote, q) {
            assert(x.subrange(q, q + 1) =~= a.subrange(q, q + 1));
            assert(occurs_at(a, quote, q));
        }
    }
    lemma_find_from_is(x, quote, start, end);
}

/// What a tag refers to, with an attribute at its end.
proof fn lemma_value_in_front(u: Seq<u8>, new: Seq<u8>, w: Seq<u8>)
    requires
        forall|k: int| 0 <= k < w.len() ==> #[trigger] w[k] != 34 && w[k] != 32,
        value_in_tag(u + w, " r=\""@) is Some,
    ensures
        value_in_tag(u + new + w, " r=\""@) == value_in_tag(u + w, " r=\""@),
{
    let head = utf8(" r=\""@);
    let quote = utf8("\""@);
    let x = u + w;
    let y = u + (new + w);
    lemma_reference();
    lemma_quote();
    lemma_find_from(x, head, 0);
    let p = find(x, head)->0;
    lemma_byte_at(x, head, p, 3);
    if p + 4 > u.len() {
        assert(x[p + 3] == w[p + 3 - u.len()]);
    }
    let start = p + 4;
    lemma_find_from(x, quote, start);
    let end = find_from(x, quote, start)->0;
    lemma_byte_at(x, quote, end, 0);
    if end >= u.len() {
        assert(x[end] == w[end - u.len()]);
    }
    assert(u + new + w =~= y);
    assert forall|q: int| 0 <= q && q + 4 <= u.len() implies #[trigger] occurs_at(y, head, q)
        == occurs_at(x, head, q) by {
        assert(y.subrange(q, q + 4) =~= x.subrange(q, q + 4));
    }
    lemma_find_from_is(y, head, 0, p);
    assert(x.subrange(end, end + 1) =~= u.subrange(end, end + 1));
    assert forall|q: int| start <= q < end implies !#[trigger] occurs_at(u, quote, q) by {
        if occurs_at(u, quote, q) {
            assert(x.subrange(q, q + 1) =~= u.subrange(q, q + 1));
            assert(occurs_at(x, quote, q));
        }
    }
    lemma_find_from_is(u, quote, start, end);
    lemma_quote_in_front(u, new + w, start, end);
    assert(y.subrange(start, end) =~= x.subrange(start, end));
}

/// A tag with a style keeps what it refers to, and is still a tag of its kind.
#[verifier::spinoff_prover]
#[verifier::rlimit(60)]
proof fn lemma_styled_tag(tag: Seq<u8>, coord: Seq<char>, style: u32)
    requires
        is_element_tag(tag),
        refers_to(tag, coord),
        value_in_tag(tag, " s=\""@) matches Some(old) ==> forall|k: int|
            0 <= k < old.len() ==> #[trigger] old[k] != 32,
        tag_with_attribute(tag, " s=\""@, decimal(style as nat)) is Some,
    ensures
        ({
            let set = tag_with_attribute(tag, " s=\""@, decimal(style as nat))->0;
            &&& is_element_tag(set)
            &&& refers_to(set, coord)
            &&& is_closed(set) == is_closed(tag)
        }),
{
    let head = utf8(" s=\""@);
    let digits = utf8(decimal(style as nat));
    let quote = utf8("\""@);
    let set = tag_with_attribute(tag, " s=\""@, decimal(style as nat))->0;
    lemma_style_head();
    lemma_quote();
    lemma_digits(style as nat);
    lemma_opens();
    lemma_find_from(tag, head, 0);
    match find(tag, head) {
        Some(at) => {
            let start = at + 4;
            lemma_find_from(tag, quote, start);
            let end = find_from(tag, quote, start)->0;
            lemma_byte_at(tag, quote, end, 0);
            let u = tag.take(start);
            let v = tag.subrange(start, end);
            let w = tag.skip(end);
            assert(tag =~= u + v + w);
            assert(set =~= u + digits + w);
            lemma_byte_at(tag, head, at, 0);
            lemma_byte_at(tag, head, at, 1);
            lemma_byte_at(tag, head, at, 2);
            lemma_byte_at(tag, head, at, 3);
            assert forall|k: int| 0 <= k < v.len() implies #[trigger] v[k] != 32 by {
                let old = value_in_tag(tag, " s=\""@)->0;
                assert(old =~= v);
                assert(old[k] != 32);
            }
            lemma_value_beside(u, v, digits, w);
            lemma_tag_with_middle(tag, u, v, w, digits);
        },
        None => {
            let at = if tag[tag.len() - 2] == 47 {
                tag.len() - 2
            } else {
                tag.len() - 1
            };
            let new = utf8(" s=\""@ + decimal(style as nat) + "\""@);
            lemma_utf8_concat(" s=\""@, decimal(style as nat));
            lemma_utf8_concat(" s=\""@ + decimal(style as nat), "\""@);
            assert(new == head + digits + quote);
            let u = tag.take(at);
            let w = tag.skip(at);
            let none = Seq::<u8>::empty();
            assert(tag =~= u + w);
            assert(tag =~= u + none + w);
            assert(set =~= u + new + w);
            assert forall|k: int| 0 <= k < w.len() implies #[trigger] w[k] != 34 && w[k] != 32 by {
                assert(w[k] == tag[at + k]);
            }
            lemma_value_in_front(u, new, w);
            assert forall|k: int| 0 <= k < new.len() implies #[trigger] new[k] != 60 && new[k] != 62
                && new[k] != 47 by {
                if k < 4 {
                    assert(new[k] == head[k]);
                } else if k < 4 + digits.len() {
                    assert(new[k] == digits[k - 4]);
                } else {
                    assert(new[k] == quote[0]);
                }
            }
            assert(at >= 3) by {
                lemma_byte_at(tag, utf8("<c "@), 0, 2);
            }
            lemma_tag_with_middle(tag, u, none, w, new);
        },
    }
}

/// The whole of a tag of a cell.
spec fn is_element_tag(tag: Seq<u8>) -> bool {
    &&& tag.len() >= 4
    &&& occurs_at(tag, utf8("<c "@), 0)
    &&& tag.last() == 62
    &&& forall|k: int| 0 < k < tag.len() ==> #[trigger] tag[k] != 60
    &&& forall|k: int| 0 <= k < tag.len() - 1 ==> #[trigger] tag[k] != 62
}

/// A tag with other bytes in its middle.
proof fn lemma_tag_with_middle(tag: Seq<u8>, u: Seq<u8>, v: Seq<u8>, w: Seq<u8>, new: Seq<u8>)
    requires
        is_element_tag(tag),
        tag == u + v + w,
        u.len() >= 3,
        w.len() >= 1,
        w.len() >= 2 || (v.len() == 0 && u.last() != 47 && new.len() > 0),
        forall|k: int|
            0 <= k < new.len() ==> #[trigger] new[k] != 60 && new[k] != 62 && new[k] != 47,
    ensures
        is_element_tag(u + new + w),
        is_closed(u + new + w) == is_closed(tag),
{
    let set = u + new + w;
    lemma_opens();
    assert(set.subrange(0, 3) =~= tag.subrange(0, 3)) by {
        assert forall|k: int| 0 <= k < 3 implies #[trigger] set[k] == tag[k] by {
            assert(tag[k] == u[k]);
        }
    }
    assert(set.last() == w.last() && tag.last() == w.last());
    assert forall|k: int| 0 < k < set.len() implies #[trigger] set[k] != 60 by {
        if k < u.len() {
            assert(set[k] == tag[k]);
        } else if k < u.len() + new.len() {
            assert(set[k] == new[k - u.len()]);
        } else {
            assert(set[k] == tag[k - new.len() + v.len()]);
        }
    }
    assert forall|k: int| 0 <= k < set.len() - 1 implies #[trigger] set[k] != 62 by {
        if k < u.len() {
            assert(set[k] == tag[k]);
        } else if k < u.len() + new.len() {
            assert(set[k] == new[k - u.len()]);
        } else {
            assert(set[k] == tag[k - new.len() + v.len()]);
        }
    }
    if w.len() >= 2 {
        assert(set[set.len() - 2] == w[w.len() - 2]);
        assert(tag[tag.len() - 2] == w[w.len() - 2]);
    } else {
        assert(tag[tag.len() - 2] == u.last());
        assert(set[set.len() - 2] == new.last());
    }
}

// ---- cells with a style -------------------------------------------------------------------

/// The style of a tag, where it has one, holds no space.
pub open spec fn has_plain_style(tag: Seq<u8>) -> bool {
    value_in_tag(tag, " s=\""@) matches Some(old) ==> forall|k: int|
        0 <= k < old.len() ==> #[trigger] old[k] != 32
}

/// A cell with a style in its tag is still the cell, and holds nothing that it did not hold.
#[verifier::spinoff_prover]
#[verifier::rlimit(60)]
pub proof fn lemma_styled_cell(k: Seq<u8>, coord: Seq<char>, style: u32)
    requires
        is_element(k, "<c "@, "</c>"@, coord),
        has_plain_style(tag_at(k, 0)),
        tag_with_attribute(tag_at(k, 0), " s=\""@, decimal(style as nat)) is Some,
        find(k, utf8("</row>"@)) is None,
        find(k, utf8("<row "@)) is None,
        find(k, utf8("</sheetData>"@)) is None,
    ensures
        ({
            let set = tag_with_attribute(tag_at(k, 0), " s=\""@, decimal(style as nat))->0;
            let styled = set + k.skip(tag_stop(k, 0));
            &&& is_element(styled, "<c "@, "</c>"@, coord)
            &&& tag_at(styled, 0) == set
            &&& find(styled, utf8("</row>"@)) is None
            &&& find(styled, utf8("<row "@)) is None
            &&& find(styled, utf8("</sheetData>"@)) is None
        }),
{
    let tag = tag_at(k, 0);
    let set = tag_with_attribute(tag, " s=\""@, decimal(style as nat))->0;
    let rest = k.skip(tag_stop(k, 0));
    let open = utf8("<c "@);
    let close = utf8("</c>"@);
    lemma_sheet_ends();
    lemma_opens();
    lemma_element_end(k, "<c "@, "</c>"@, coord);
    lemma_tidy_tag(k, 0);
    assert(k =~= tag + rest);
    lemma_byte_at(k, open, 0, 2);
    assert(tag.last() == 62);
    assert(tag.subrange(0, 3) =~= k.subrange(0, 3));
    assert forall|i: int| 0 < i < tag.len() implies #[trigger] tag[i] != 60 by {
        assert(tag[i] == k[i]);
    }
    assert forall|i: int| 0 <= i < tag.len() - 1 implies #[trigger] tag[i] != 62 by {
        assert(tag[i] == k[i]);
    }
    assert(is_element_tag(tag));
    lemma_tidy_split(tag, rest);
    lemma_styled_tag(tag, coord, style);
    lemma_byte_at(set, open, 0, 0);
    lemma_byte_at(set, open, 0, 1);
    lemma_byte_at(set, open, 0, 2);
    lemma_tag_tidy(set);
    lemma_tidy_join(set, rest);
    lemma_tag_in_front(set, rest, 0);
    let styled = set + rest;
    assert(styled.subrange(0, 3) =~= set.subrange(0, 3));
    lemma_find_back(tag, rest, close, 0);
    lemma_find_back(set, rest, close, 0);
    lemma_find_pieces(tag, rest, open, 1);
    lemma_find_pieces(set, rest, open, 1);
    lemma_not_in_tag(set, open, 1);
    lemma_find_pieces(tag, rest, utf8("</row>"@), 0);
    lemma_find_pieces(set, rest, utf8("</row>"@), 0);
    lemma_not_in_tag(set, utf8("</row>"@), 0);
    lemma_find_pieces(tag, rest, utf8("<row "@), 0);
    lemma_find_pieces(set, rest, utf8("<row "@), 0);
    lemma_not_in_tag(set, utf8("<row "@), 0);
    lemma_find_pieces(tag, rest, utf8("</sheetData>"@), 0);
    lemma_find_pieces(set, rest, utf8("</sheetData>"@), 0);
    lemma_not_in_tag(set, utf8("</sheetData>"@), 0);
}

/// A cell that closes itself.
pub open spec fn bare_cell(coord: Seq<char>) -> Seq<u8> {
    utf8("<c r=\""@ + coord + "\"/>"@)
}

/// A cell that closes itself is one, without a style.
pub proof fn lemma_bare_cell(coord: Seq<char>)
    requires
        is_cell_name(coord),
    ensures
        ({
            let k = bare_cell(coord);
            &&& is_element(k, "<c "@, "</c>"@, coord)
            &&& tag_at(k, 0) == k
            &&& tag_stop(k, 0) == k.len()
            &&& k.len() >= 4
            &&& k[k.len() - 2] == 47
            &&& find(k, utf8(" s=\""@)) is None
            &&& find(k, utf8("</row>"@)) is None
            &&& find(k, utf8("<row "@)) is None
            &&& find(k, utf8("</sheetData>"@)) is None
        }),
{
    let text = "<c r=\""@ + coord + "\"/>"@;
    let k = bare_cell(coord);
    let c = coord.len() as int;
    let style = utf8(" s=\""@);
    reveal_strlit("<c r=\"");
    reveal_strlit("\"/>");
    lemma_cell_name_chars(coord);
    lemma_opens();
    lemma_sheet_ends();
    lemma_reference();
    lemma_style_head();
    assert forall|i: int| 6 <= i < 6 + c implies #[trigger] text[i] == coord[i - 6] && (is_letter(
        text[i],
    ) || is_digit(text[i])) by {
        assert(is_letter(coord[i - 6]) || is_digit(coord[i - 6]));
    }
    assert(vstd::utf8::is_ascii_chars(coord)) by {
        assert forall|i: int| 0 <= i < c implies '\0' <= #[trigger] coord[i] <= '\u{7f}' by {
            assert(is_letter(coord[i]) || is_digit(coord[i]));
        }
    }
    assert(vstd::utf8::is_ascii_chars(text));
    lemma_ascii_tag(text);
    lemma_utf8_ascii(text);
    lemma_utf8_ascii(coord);
    assert(k[0] == text[0] as u8 && k[1] == text[1] as u8 && k[2] == text[2] as u8);
    assert(k[3] == text[3] as u8 && k[4] == text[4] as u8 && k[5] == text[5] as u8);
    assert(k[6 + c] == text[6 + c] as u8 && k[7 + c] == text[7 + c] as u8);
    assert(k.subrange(0, 3) =~= utf8("<c "@));
    assert(k.subrange(2, 6) =~= utf8(" r=\""@));
    assert(k.subrange(6, 6 + c) =~= utf8(coord)) by {
        assert forall|i: int| 0 <= i < c implies k[6 + i] == #[trigger] utf8(coord)[i] by {
            assert(k[6 + i] == text[6 + i] as u8);
            assert(text[6 + i] == coord[i]);
        }
    }
    assert forall|i: int| 0 <= i < utf8(coord).len() implies #[trigger] utf8(coord)[i] != 34 by {
        assert(is_letter(coord[i]) || is_digit(coord[i]));
    }
    lemma_refers(k, coord, 2);
    lemma_find_from(k, style, 0);
    if let Some(p) = find(k, style) {
        lemma_byte_at(k, style, p, 0);
        lemma_byte_at(k, style, p, 1);
        assert(k[p] == text[p] as u8);
        if 6 <= p < 6 + c {
            assert(is_letter(text[p]) || is_digit(text[p]));
        }
    }
    lemma_not_in_tag(k, utf8("<c "@), 1);
    lemma_not_in_tag(k, utf8("</row>"@), 0);
    lemma_not_in_tag(k, utf8("<row "@), 0);
    lemma_not_in_tag(k, utf8("</sheetData>"@), 0);
}

/// A new cell with a style is a cell that closes itself and was given the style.
pub proof fn lemma_new_styled(coord: Seq<char>, style: u32)
    requires
        is_cell_name(coord),
    ensures
        ({
            let new = utf8("<c r=\""@ + coord + ("\" s=\""@ + decimal(style as nat) + "\"/>"@));
            &&& tag_with_attribute(bare_cell(coord), " s=\""@, decimal(style as nat)) == Some(new)
            &&& is_element(new, "<c "@, "</c>"@, coord)
            &&& tag_at(new, 0) == new
            &&& find(new, utf8("</row>"@)) is None
            &&& find(new, utf8("<row "@)) is None
            &&& find(new, utf8("</sheetData>"@)) is None
        }),
{
    let number = decimal(style as nat);
    let k = bare_cell(coord);
    let new = utf8("<c r=\""@ + coord + ("\" s=\""@ + number + "\"/>"@));
    lemma_bare_cell(coord);
    reveal_strlit("\" s=\"");
    reveal_strlit(" s=\"");
    reveal_strlit("\"");
    reveal_strlit("\"/>");
    reveal_strlit("/>");
    lemma_utf8_ascii("/>"@);
    let front = "<c r=\""@ + coord + "\""@;
    let middle = " s=\""@ + number + "\""@;
    assert("<c r=\""@ + coord + "\"/>"@ =~= front + "/>"@);
    assert("<c r=\""@ + coord + ("\" s=\""@ + number + "\"/>"@) =~= (front + middle) + "/>"@);
    lemma_utf8_concat(front, "/>"@);
    lemma_utf8_concat(front, middle);
    lemma_utf8_concat(front + middle, "/>"@);
    assert(insert(k, k.len() - 2, utf8(middle)) =~= new);
    lemma_styled_cell(k, coord, style);
    assert(new + k.skip(k.len() as int) =~= new);
}

/// The cell `n` is the cell `k` but for the style in its tag.
pub open spec fn is_restyled(k: Seq<u8>, n: Seq<u8>) -> bool {
    n == k || exists|style: u32|
        is_given(#[trigger] decimal(style as nat), tag_at(k, 0), tag_at(n, 0)) && n == tag_at(n, 0)
            + k.skip(tag_stop(k, 0))
}

/// A tag is another one that was given a style.
pub open spec fn is_given(style: Seq<char>, tag: Seq<u8>, set: Seq<u8>) -> bool {
    tag_with_attribute(tag, " s=\""@, style) == Some(set)
}

/// The cell `coord`, where `m` has it, stands in `set` too, but for the style in its tag.
pub open spec fn keeps_content(m: Seq<u8>, set: Seq<u8>, coord: Seq<char>) -> bool {
    cell_text(m, coord) matches Some(k) ==> (cell_text(set, coord) matches Some(n) && is_restyled(
        k,
        n,
    ))
}

/// A cell that is given a style twice is given it the second time alone.
pub proof fn lemma_restyled_again(k: Seq<u8>, n: Seq<u8>, o: Seq<u8>)
    requires
        is_restyled(k, n),
        is_restyled(n, o),
    ensures
        is_restyled(k, o),
{
    if n != k && o != n {
        let first = choose|style: u32|
            is_given(#[trigger] decimal(style as nat), tag_at(k, 0), tag_at(n, 0)) && n == tag_at(
                n,
                0,
            ) + k.skip(tag_stop(k, 0));
        let second = choose|style: u32|
            is_given(#[trigger] decimal(style as nat), tag_at(n, 0), tag_at(o, 0)) && o == tag_at(
                o,
                0,
            ) + n.skip(tag_stop(n, 0));
        lemma_style_head();
        lemma_digits(first as nat);
        law_attribute_overwritten(
            tag_at(k, 0),
            " s=\""@,
            decimal(first as nat),
            decimal(second as nat),
        );
        crate::tags::lemma_tag_stop(n, 0);
        assert(n.skip(tag_stop(n, 0)) =~= k.skip(tag_stop(k, 0)));
        assert(is_given(decimal(second as nat), tag_at(k, 0), tag_at(o, 0)));
    }
}

/// A body whose cell `coord` was given a style.
proof fn lemma_styled_body(t: Seq<u8>, m: Seq<u8>, coord: Seq<char>, style: u32) -> (set: Seq<u8>)
    requires
        is_head(t),
        is_cell_name(coord),
        is_body(m),
        body_holds(m, coord),
        tag_of(m, "<c "@, coord, 0) matches Some(s) ==> has_plain_style(tag_at(m, s)),
        cell_styled(t + m, coord, style) matches Some(Ok(_)),
    ensures
        cell_styled(t + m, coord, style) == Some(Ok::<Seq<u8>, ErrorView>(t + set)),
        is_body(set),
        tag_of(set, "<c "@, coord, 0) matches Some(s) && style_in_tag(tag_at(set, s), " s=\""@)
            == Ok::<Option<u32>, ErrorView>(Some(style)) && has_plain_style(tag_at(set, s)),
        body_holds(set, coord),
        body_without(set, coord) == body_without(m, coord),
        keeps_others(m, set, coord),
        keeps_content(m, set, coord),
{
    match tag_of(m, "<c "@, coord, 0) {
        None => lemma_styled_new(t, m, coord, style),
        Some(s) => lemma_styled_old(t, m, coord, style),
    }
}

/// A style that was given is plain.
pub proof fn lemma_given_plain(tag: Seq<u8>, style: u32)
    ensures
        tag_with_attribute(tag, " s=\""@, decimal(style as nat)) matches Some(set) ==> has_plain_style(
            set,
        ) && style_in_tag(set, " s=\""@) == Ok::<Option<u32>, ErrorView>(Some(style)),
{
    lemma_style_head();
    lemma_digits(style as nat);
    law_tag_style_read_back(tag, style);
    law_attribute_read_back(tag, " s=\""@, decimal(style as nat));
}

/// A body that got a cell with a style.
#[verifier::spinoff_prover]
#[verifier::rlimit(60)]
proof fn lemma_styled_new(t: Seq<u8>, m: Seq<u8>, coord: Seq<char>, style: u32) -> (set: Seq<u8>)
    requires
        is_head(t),
        is_cell_name(coord),
        is_body(m),
        tag_of(m, "<c "@, coord, 0) is None,
    ensures
        cell_styled(t + m, coord, style) == Some(Ok::<Seq<u8>, ErrorView>(t + set)),
        is_body(set),
        tag_of(set, "<c "@, coord, 0) matches Some(s) && style_in_tag(tag_at(set, s), " s=\""@)
            == Ok::<Option<u32>, ErrorView>(Some(style)) && has_plain_style(tag_at(set, s)),
        body_holds(set, coord),
        body_without(set, coord) == body_without(m, coord),
        keeps_others(m, set, coord),
        keeps_content(m, set, coord),
{
    let new = utf8("<c r=\""@ + coord + ("\" s=\""@ + decimal(style as nat) + "\"/>"@));
    lemma_sheet_ends();
    lemma_opens();
    lemma_row_without(t, m, coord);
    lemma_new_styled(coord, style);
    lemma_given_plain(bare_cell(coord), style);
    let end = m.len() - 6;
    let a = m.take(end);
    let b = m.skip(end);
    lemma_find_from(m, utf8("</row>"@), 0);
    lemma_byte_at(m, utf8("</row>"@), end, 0);
    assert(m =~= a + b);
    lemma_tidy_split(a, b);
    lemma_body_insert(a, new, b);
    lemma_tag_of_pieces(a, b, "<c "@, coord, 0);
    let set = a + new + b;
    assert(insert(t + m, (t + m).len() - 6, new) =~= t + set);
    lemma_in_body(a, new, b, coord);
    let none = Seq::<u8>::empty();
    assert(a + none + b =~= m);
    lemma_occurs_back(a, b, utf8("</row>"@), 0);
    lemma_keeps_others(a, none, b, new, coord);
    set
}

/// A body whose cell got a style.
#[verifier::spinoff_prover]
#[verifier::rlimit(60)]
proof fn lemma_styled_old(t: Seq<u8>, m: Seq<u8>, coord: Seq<char>, style: u32) -> (set: Seq<u8>)
    requires
        is_head(t),
        is_body(m),
        body_holds(m, coord),
        tag_of(m, "<c "@, coord, 0) is Some,
        has_plain_style(tag_at(m, tag_of(m, "<c "@, coord, 0)->0)),
        cell_styled(t + m, coord, style) matches Some(Ok(_)),
    ensures
        cell_styled(t + m, coord, style) == Some(Ok::<Seq<u8>, ErrorView>(t + set)),
        is_body(set),
        tag_of(set, "<c "@, coord, 0) matches Some(s) && style_in_tag(tag_at(set, s), " s=\""@)
            == Ok::<Option<u32>, ErrorView>(Some(style)) && has_plain_style(tag_at(set, s)),
        body_holds(set, coord),
        body_without(set, coord) == body_without(m, coord),
        keeps_others(m, set, coord),
        keeps_content(m, set, coord),
{
    let number = decimal(style as nat);
    lemma_sheet_ends();
    lemma_row_without(t, m, coord);
    lemma_cell_pieces(m, coord);
    let s = tag_of(m, "<c "@, coord, 0)->0;
    let e = element_stop(m, s, "</c>"@)->0;
    let p = m.take(s);
    let k = m.subrange(s, e);
    let q = m.skip(e);
    let tag = tag_at(k, 0);
    assert(m =~= p + (k + q));
    lemma_element_end(k, "<c "@, "</c>"@, coord);
    lemma_tag_behind(p, k + q, 0);
    lemma_tag_in_front(k, q, 0);
    lemma_tag_behind(t, m, s);
    assert(tag_at(t + m, t.len() + s) == tag);
    let set_tag = tag_with_attribute(tag, " s=\""@, number)->0;
    lemma_cell_holds_no_row(p, k, q);
    lemma_styled_cell(k, coord, style);
    lemma_given_plain(tag, style);
    let styled = set_tag + k.skip(tag_stop(k, 0));
    let set = p + styled + q;
    lemma_body_insert(p, styled, q);
    lemma_in_body(p, styled, q, coord);
    lemma_tag_replaced(t, p, k, q, set_tag);
    assert(p + k + q =~= m);
    lemma_keeps_others(p, k, q, styled, coord);
    assert(is_given(decimal(style as nat), tag_at(k, 0), tag_at(styled, 0)));
    set
}

/// Another tag in place of the tag of a cell.
pub proof fn lemma_tag_replaced(t: Seq<u8>, p: Seq<u8>, k: Seq<u8>, q: Seq<u8>, set: Seq<u8>)
    requires
        0 <= tag_stop(k, 0) <= k.len(),
    ensures
        replace(
            t + (p + (k + q)),
            (t.len() + p.len()) as int,
            t.len() + p.len() + tag_stop(k, 0),
            set,
        ) == t + (p + (set + k.skip(tag_stop(k, 0))) + q),
{
    assert(replace(
        t + (p + (k + q)),
        (t.len() + p.len()) as int,
        t.len() + p.len() + tag_stop(k, 0),
        set,
    ) =~= t + (p + (set + k.skip(tag_stop(k, 0))) + q));
}

/// The cell `coord` can be given a style that is read back: the sheet can hold it, and the style that
/// it has, where it has one, holds no space.
pub open spec fn can_style(sheet: SheetView, coord: Seq<char>) -> bool {
    &&& can_hold(sheet, coord)
    &&& tag_of(body_of(sheet.xml, coord_row(coord)->0), "<c "@, coord, 0) matches Some(s)
        ==> has_plain_style(tag_at(body_of(sheet.xml, coord_row(coord)->0), s))
}

/// A cell that is given a style, by the pieces around its row.
#[verifier::spinoff_prover]
#[verifier::rlimit(60)]
proof fn lemma_painted_between(
    sheet: SheetView,
    coord: Seq<char>,
    style: u32,
    a: Seq<u8>,
    t: Seq<u8>,
    r: Seq<u8>,
    b: Seq<u8>,
) -> (set: Seq<u8>)
    requires
        can_style(sheet, coord),
        cell_painted(sheet, coord, style) matches Some(outcome) && outcome.result is Ok,
        sheet.xml == a + r + b,
        is_head(t),
        is_body(body_of(sheet.xml, coord_row(coord)->0)),
        match row_found(sheet.xml, coord_row(coord)->0) {
            Some(found) => found == Ok::<(int, int), ErrorView>(
                (a.len() as int, (a.len() + r.len()) as int),
            ) && row_opened(r) == t + body_of(sheet.xml, coord_row(coord)->0),
            None => r.len() == 0 && row_place(sheet.xml, coord_row(coord)->0) == Some(
                a.len() as int,
            ) && t == new_head(coord_row(coord)->0),
        },
    ensures
        cell_painted(sheet, coord, style)->0.sheet.xml == a + (t + set) + b,
        is_body(set),
        tag_of(set, "<c "@, coord, 0) matches Some(s) && style_in_tag(tag_at(set, s), " s=\""@)
            == Ok::<Option<u32>, ErrorView>(Some(style)) && has_plain_style(tag_at(set, s)),
        body_holds(set, coord),
        body_without(set, coord) == body_without(body_of(sheet.xml, coord_row(coord)->0), coord),
        keeps_others(body_of(sheet.xml, coord_row(coord)->0), set, coord),
        keeps_content(body_of(sheet.xml, coord_row(coord)->0), set, coord),
{
    let number = coord_row(coord)->0;
    let m = body_of(sheet.xml, number);
    match row_found(sheet.xml, number) {
        Some(_) => {
            assert(sheet.xml.subrange(a.len() as int, (a.len() + r.len()) as int) =~= r);
            let set = lemma_styled_body(t, m, coord, style);
            lemma_replaced(a, r, b, t + set);
            set
        },
        None => {
            lemma_new_body(number, coord, ""@);
            lemma_bare_body();
            lemma_cell_set(m, coord, ""@);
            let made = body_with(m, coord, ""@)->0;
            lemma_made_plain(m, coord);
            let set = lemma_styled_body(t, made, coord, style);
            assert(sheet.xml =~= a + b);
            lemma_inserted(a, b, t + set);
            assert forall|other: Seq<char>| #[trigger]
                body_holds(m, other) && utf8(coord) != utf8(other) implies {
                &&& body_holds(set, other)
                &&& cell_text(set, other) == cell_text(m, other)
            } by {
                lemma_set_neighbour(m, coord, ""@, other);
                assert(body_holds(made, other));
            }
            assert(cell_text(m, coord) is None);
            set
        },
    }
}

/// The style that a cell was given is the one that is read back; the cell is what it was but for the
/// style in its tag, what its row holds besides the cell stays as it was, and the cell can be given a
/// style again.
#[verifier::spinoff_prover]
#[verifier::rlimit(60)]
pub proof fn law_style_read_back(sheet: SheetView, coord: Seq<char>, style: u32)
    requires
        can_style(sheet, coord),
    ensures
        cell_painted(sheet, coord, style) matches Some(outcome) ==> (outcome.result is Ok ==> {
            let number = coord_row(coord)->0;
            &&& style_of(outcome.sheet.xml, coord) == Ok::<Option<u32>, ErrorView>(Some(style))
            &&& body_without(body_of(outcome.sheet.xml, number), coord) == body_without(
                body_of(sheet.xml, number),
                coord,
            )
            &&& keeps_content(
                body_of(sheet.xml, number),
                body_of(outcome.sheet.xml, number),
                coord,
            )
            &&& can_style(outcome.sheet, coord)
        }),
{
    let number = coord_row(coord)->0;
    if let Some(outcome) = cell_painted(sheet, coord, style) {
        if outcome.result is Ok {
            let (a, t, r, b) = lemma_around_row(sheet.xml, number);
            let set = lemma_painted_between(sheet, coord, style, a, t, r, b);
            lemma_painted(outcome.sheet.xml, number, a, t, set, b, coord, style);
        }
    }
}

/// Giving a cell a style leaves every row but its own as it was.
pub proof fn law_style_keeps_other_rows(
    sheet: SheetView,
    coord: Seq<char>,
    style: u32,
    other: u32,
)
    requires
        can_style(sheet, coord),
        coord_row(coord) != Some(other),
        keeps_row(sheet.xml, other),
    ensures
        cell_painted(sheet, coord, style) matches Some(outcome) ==> (outcome.result is Ok
            ==> row_text(outcome.sheet.xml, other) == row_text(sheet.xml, other)),
{
    let number = coord_row(coord)->0;
    if let Some(outcome) = cell_painted(sheet, coord, style) {
        if outcome.result is Ok {
            let (a, t, r, b) = lemma_around_row(sheet.xml, number);
            let set = lemma_painted_between(sheet, coord, style, a, t, r, b);
            lemma_row_made(t, set, number);
            lemma_is_between(sheet.xml, number, a, r, b);
            lemma_other_row(a, r, b, t + set, number, other);
        }
    }
}

/// The tag of a cell of a body is the tag of its text.
proof fn lemma_tag_of_cell(m: Seq<u8>, coord: Seq<char>)
    requires
        is_body(m),
        body_holds(m, coord),
    ensures
        match cell_text(m, coord) {
            None => tag_of(m, "<c "@, coord, 0) is None,
            Some(k) => tag_of(m, "<c "@, coord, 0) matches Some(s) && tag_at(m, s) == tag_at(k, 0),
        },
{
    if let Some(s) = tag_of(m, "<c "@, coord, 0) {
        let e = element_stop(m, s, "</c>"@)->0;
        let p = m.take(s);
        let k = m.subrange(s, e);
        let q = m.skip(e);
        lemma_sheet_ends();
        lemma_cell_pieces(m, coord);
        lemma_element_end(k, "<c "@, "</c>"@, coord);
        assert(m =~= p + (k + q));
        lemma_tag_behind(p, k + q, 0);
        lemma_tag_in_front(k, q, 0);
    }
}

/// The style that is read of a cell is that of its tag, and nothing else decides whether the cell can
/// be given one.
proof fn lemma_style_of_cell(sheet: SheetView, coord: Seq<char>)
    requires
        can_hold(sheet, coord),
    ensures
        match cell_text(body_of(sheet.xml, coord_row(coord)->0), coord) {
            None => style_of(sheet.xml, coord) == Ok::<Option<u32>, ErrorView>(None) && can_style(
                sheet,
                coord,
            ),
            Some(k) => style_of(sheet.xml, coord) == style_in_tag(tag_at(k, 0), " s=\""@) && (
            can_style(sheet, coord) <==> has_plain_style(tag_at(k, 0))),
        },
{
    let number = coord_row(coord)->0;
    let m = body_of(sheet.xml, number);
    match row_text(sheet.xml, number) {
        None => {
            lemma_bare_body();
        },
        Some(row) => {
            let t = row.take(tag_stop(row, 0));
            lemma_row_parts(row, number);
            lemma_tag_of_cell(m, coord);
            lemma_row_without(t, m, coord);
            if let Some(s) = tag_of(m, "<c "@, coord, 0) {
                lemma_tag_of(m, "<c "@, coord, 0);
                lemma_tag_behind(t, m, s);
            }
        },
    }
}

/// Giving a cell a style leaves every other cell as it was, and the style that it has too.
pub proof fn law_style_keeps_other_cells(
    sheet: SheetView,
    coord: Seq<char>,
    style: u32,
    other: Seq<char>,
)
    requires
        can_style(sheet, coord),
        can_style(sheet, other),
        coord != other,
    ensures
        cell_painted(sheet, coord, style) matches Some(outcome) ==> (outcome.result is Ok ==> {
            let number = coord_row(other)->0;
            &&& cell_text(body_of(outcome.sheet.xml, number), other) == cell_text(
                body_of(sheet.xml, number),
                other,
            )
            &&& style_of(outcome.sheet.xml, other) == style_of(sheet.xml, other)
            &&& can_style(outcome.sheet, other)
        }),
{
    let number = coord_row(coord)->0;
    if let Some(outcome) = cell_painted(sheet, coord, style) {
        if outcome.result is Ok {
            let (a, t, r, b) = lemma_around_row(sheet.xml, number);
            let set = lemma_painted_between(sheet, coord, style, a, t, r, b);
            if coord_row(other) == coord_row(coord) {
                if utf8(coord) == utf8(other) {
                    lemma_utf8_injective(coord, other);
                }
                lemma_row_there(a, t, set, b, number);
                assert(body_holds(body_of(sheet.xml, number), other));
            } else {
                lemma_row_made(t, set, number);
                lemma_is_between(sheet.xml, number, a, r, b);
                lemma_other_row(a, r, b, t + set, number, coord_row(other)->0);
            }
            lemma_style_of_cell(sheet, other);
            lemma_style_of_cell(outcome.sheet, other);
        }
    }
}

/// A cell that was set has no style.
proof fn lemma_made_plain(m: Seq<u8>, coord: Seq<char>)
    requires
        is_cell_name(coord),
        is_body(m),
        body_holds(m, coord),
        body_with(m, coord, ""@) is Some,
    ensures
        ({
            let made = body_with(m, coord, ""@)->0;
            tag_of(made, "<c "@, coord, 0) matches Some(s) ==> has_plain_style(tag_at(made, s))
        }),
{
    let made = body_with(m, coord, ""@)->0;
    let cell = written_cell(coord, ""@);
    lemma_cell_set(m, coord, ""@);
    lemma_cell_pieces(made, coord);
    let s = tag_of(made, "<c "@, coord, 0)->0;
    let e = element_stop(made, s, "</c>"@)->0;
    let p = made.take(s);
    let q = made.skip(e);
    lemma_sheet_ends();
    lemma_element_end(cell, "<c "@, "</c>"@, coord);
    assert(made =~= p + (cell + q));
    lemma_tag_behind(p, cell + q, 0);
    lemma_tag_in_front(cell, q, 0);
    crate::laws::shapes::lemma_no_style(coord, ""@);
}

/// What is read of a cell with a style.
proof fn lemma_painted(
    xml: Seq<u8>,
    number: u32,
    a: Seq<u8>,
    t: Seq<u8>,
    set: Seq<u8>,
    b: Seq<u8>,
    coord: Seq<char>,
    style: u32,
)
    requires
        coord_row(coord) == Some(number),
        xml == a + (t + set) + b,
        tidy(a),
        tidy(b),
        tag_of(a, "<row "@, decimal(number as nat), 0) is None,
        is_head(t),
        refers_to(t, decimal(number as nat)),
        is_body(set),
        tag_of(set, "<c "@, coord, 0) matches Some(s) && style_in_tag(tag_at(set, s), " s=\""@)
            == Ok::<Option<u32>, ErrorView>(Some(style)),
    ensures
        style_of(xml, coord) == Ok::<Option<u32>, ErrorView>(Some(style)),
        body_of(xml, number) == set,
        keeps_row(xml, number),
{
    lemma_row_there(a, t, set, b, number);
    lemma_row_made(t, set, number);
    lemma_row_without(t, set, coord);
    lemma_tag_of(set, "<c "@, coord, 0);
    let s = tag_of(set, "<c "@, coord, 0)->0;
    lemma_tag_behind(t, set, s);
}

// ---- the cells of a column ----------------------------------------------------------------

/// Every tag that starts at a match, and in front of which the one before has ended, has a style
/// already, from the `i`-th match on.
pub open spec fn have_style(
    xml: Seq<u8>,
    cells: Seq<MatchView>,
    style: Seq<char>,
    i: int,
    last: int,
) -> bool
    decreases cells.len() - i,
{
    0 <= i < cells.len() ==> {
        let stop = tag_stop(xml, cells[i].start);
        &&& last <= cells[i].start < xml.len()
        &&& find_from(xml, utf8(">"@), cells[i].start) is Some
        &&& tag_with_attribute(tag_at(xml, cells[i].start), " s=\""@, style) == Some(
            tag_at(xml, cells[i].start),
        )
        &&& have_style(xml, cells, style, i + 1, stop)
    }
}

/// Forcing a style on tags that have it leaves the document as it was.
pub proof fn law_forced_again(
    xml: Seq<u8>,
    cells: Seq<MatchView>,
    style: Seq<char>,
    i: int,
    last: int,
)
    requires
        0 <= i,
        0 <= last <= xml.len(),
        have_style(xml, cells, style, i, last),
    ensures
        tags_painted(xml, cells, style, i, last) == Some(xml.skip(last)),
    decreases cells.len() - i,
{
    if i < cells.len() {
        let start = cells[i].start;
        crate::tags::lemma_tag_stop(xml, start);
        let stop = tag_stop(xml, start);
        law_forced_again(xml, cells, style, i + 1, stop);
        assert(xml.subrange(last, start) + tag_at(xml, start) + xml.skip(stop) =~= xml.skip(last));
    }
}

} // verus!
