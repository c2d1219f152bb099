//! What stands between the tags of a row, and cells that are put in there and taken out.

use vstd::prelude::*;
use crate::bytes::{find, find_from, insert, lemma_find_from, occurs_at, replace};
use crate::coord::is_cell_name;
use crate::laws::pieces::lemma_byte_at;
use crate::laws::shapes::{lemma_sheet_ends, lemma_written_cell};
use crate::laws::tidy::{
    is_element, lemma_element_end, lemma_element_found, lemma_element_pieces, lemma_find_back,
    lemma_find_pieces, lemma_stop_back, lemma_tag_behind, lemma_tag_in_front, lemma_tag_of_back,
    lemma_tag_of_pieces, lemma_tidy_join, lemma_tidy_split, moved, tidy,
};
use crate::sheet::{
    cell_slot, cell_start, later_cell, leading_column, lemma_opens, tag_column, with_cell,
    without_cell, written_cell,
};
use crate::tags::{element_stop, is_closed, lemma_tag_of, refers_to, tag_at, tag_of, tag_stop};
use crate::text::utf8;

verus! {

// ---- later cells in pieces ----------------------------------------------------------------

/// What is found in the second of two pieces.
pub open spec fn behind(found: Option<Option<int>>, n: int) -> Option<Option<int>> {
    match found {
        None => None,
        Some(p) => Some(moved(p, n)),
    }
}

/// A later cell, searched from a place in the second of two pieces on.
pub proof fn lemma_later_back(a: Seq<u8>, b: Seq<u8>, column: u32, i: int)
    requires
        0 <= i,
    ensures
        later_cell(a + b, column, a.len() + i) == behind(later_cell(b, column, i), a.len() as int),
    decreases b.len() + 1 - i,
{
    let open = utf8("<c "@);
    lemma_find_back(a, b, open, i);
    lemma_find_from(b, open, i);
    if let Some(p) = find_from(b, open, i) {
        lemma_tag_behind(a, b, p);
        lemma_later_back(a, b, column, p + 1);
    }
}

/// A later cell in two pieces: in the first one, or else in the second one.
pub proof fn lemma_later_pieces(a: Seq<u8>, b: Seq<u8>, column: u32, i: int)
    requires
        tidy(a),
        0 <= i <= a.len(),
    ensures
        later_cell(a + b, column, i) == (match later_cell(a, column, i) {
            Some(None) => behind(later_cell(b, column, 0), a.len() as int),
            found => found,
        }),
    decreases a.len() - i,
{
    let open = utf8("<c "@);
    lemma_sheet_ends();
    lemma_find_pieces(a, b, open, i);
    lemma_find_from(a, open, i);
    match find_from(a, open, i) {
        Some(p) => {
            lemma_byte_at(a, open, p, 0);
            lemma_tag_in_front(a, b, p);
            lemma_later_pieces(a, b, column, p + 1);
        },
        None => {
            lemma_later_back(a, b, column, 0);
            lemma_find_back(a, b, open, 0);
        },
    }
}

/// A later cell is one, of a later column.
pub proof fn lemma_later_cell(x: Seq<u8>, column: u32, i: int)
    requires
        0 <= i,
    ensures
        later_cell(x, column, i) matches Some(Some(p)) ==> {
            &&& i <= p
            &&& occurs_at(x, utf8("<c "@), p)
            &&& tag_column(tag_at(x, p)) matches Some(Some(other)) && other > column
        },
    decreases x.len() + 1 - i,
{
    let open = utf8("<c "@);
    lemma_find_from(x, open, i);
    if let Some(p) = find_from(x, open, i) {
        lemma_later_cell(x, column, p + 1);
    }
}

/// A cell that is later than one column is later than those in front of that column.
pub proof fn lemma_later_order(x: Seq<u8>, column: u32, other: u32, i: int)
    requires
        0 <= i,
        column <= other,
    ensures
        later_cell(x, column, i) == Some(None::<int>) ==> later_cell(x, other, i) == Some(None::<int>),
        later_cell(x, other, i) matches Some(Some(p)) ==> (later_cell(x, column, i) matches Some(Some(q))
            && q <= p),
    decreases x.len() + 1 - i,
{
    let open = utf8("<c "@);
    lemma_find_from(x, open, i);
    if let Some(p) = find_from(x, open, i) {
        lemma_later_order(x, column, other, p + 1);
        lemma_later_cell(x, other, p + 1);
    }
}

/// The column of a tag that refers to a cell.
pub proof fn lemma_column_of(tag: Seq<u8>, coord: Seq<char>)
    requires
        refers_to(tag, coord),
    ensures
        tag_column(tag) == Some(leading_column(utf8(coord))),
{
    vstd::utf8::encode_utf8_valid_utf8(coord);
}

/// Whether a cell is later than a column.
pub proof fn lemma_later_of_cell(k: Seq<u8>, coord: Seq<char>, column: u32)
    requires
        is_element(k, "<c "@, "</c>"@, coord),
        leading_column(utf8(coord)) is Some,
    ensures
        later_cell(k, column, 0) == Some(
            if leading_column(utf8(coord))->0 > column {
                Some(0int)
            } else {
                None
            },
        ),
{
    lemma_column_of(tag_at(k, 0), coord);
    lemma_find_from(k, utf8("<c "@), 0);
    assert(find_from(k, utf8("<c "@), 0) == Some(0int));
    assert(later_cell(k, column, 1) == Some(None::<int>));
}

// ---- bodies -------------------------------------------------------------------------------

/// What stands behind the tag of a row, up to the end of the row: it ends with the first `</row>`, and
/// holds no other row and no end of the data.
pub open spec fn is_body(m: Seq<u8>) -> bool {
    &&& tidy(m)
    &&& find(m, utf8("</row>"@)) == Some(m.len() - utf8("</row>"@).len())
    &&& find(m, utf8("<row "@)) is None
    &&& find(m, utf8("</sheetData>"@)) is None
}

/// A body without the cell `coord`.
pub open spec fn body_without(m: Seq<u8>, coord: Seq<char>) -> Seq<u8> {
    match tag_of(m, "<c "@, coord, 0) {
        None => m,
        Some(s) => match element_stop(m, s, "</c>"@) {
            None => m,
            Some(e) => replace(m, s, e, Seq::empty()),
        },
    }
}

/// Where a cell of column `column` goes in a body.
pub open spec fn body_slot(m: Seq<u8>, column: u32) -> Option<int> {
    match later_cell(m, column, 0) {
        None => None,
        Some(None) => Some(m.len() - utf8("</row>"@).len()),
        Some(Some(p)) => Some(p),
    }
}

/// A body with the cell `coord` set to `value`.
pub open spec fn body_with(m: Seq<u8>, coord: Seq<char>, value: Seq<char>) -> Option<Seq<u8>> {
    let rest = body_without(m, coord);
    match leading_column(utf8(coord)) {
        None => None,
        Some(column) => match body_slot(rest, column) {
            None => None,
            Some(at) => Some(insert(rest, at, written_cell(coord, value))),
        },
    }
}

/// The cell `coord` of a body.
pub open spec fn cell_text(m: Seq<u8>, coord: Seq<char>) -> Option<Seq<u8>> {
    match tag_of(m, "<c "@, coord, 0) {
        None => None,
        Some(s) => match element_stop(m, s, "</c>"@) {
            None => None,
            Some(e) => Some(m.subrange(s, e)),
        },
    }
}

/// A body has the cell `coord` once at most, and the cell ends and holds no other one.
pub open spec fn body_holds(m: Seq<u8>, coord: Seq<char>) -> bool {
    tag_of(m, "<c "@, coord, 0) matches Some(s) ==> {
        &&& element_stop(m, s, "</c>"@) matches Some(e) && find_from(
            m.subrange(s, e),
            utf8("<c "@),
            1,
        ) is None
        &&& tag_of(body_without(m, coord), "<c "@, coord, 0) is None
    }
}

/// A body has the cell `coord` once at most, and there where it would be put.
pub open spec fn body_places(m: Seq<u8>, coord: Seq<char>) -> bool {
    &&& body_holds(m, coord)
    &&& tag_of(m, "<c "@, coord, 0) matches Some(s) ==> (leading_column(utf8(coord)) matches Some(
        column,
    ) && body_slot(body_without(m, coord), column) == Some(s))
}

/// The tag of a row, which is not closed.
pub open spec fn is_head(t: Seq<u8>) -> bool {
    &&& tidy(t)
    &&& occurs_at(t, utf8("<row "@), 0)
    &&& tag_at(t, 0) == t
    &&& !is_closed(t)
}

/// The tag of a row in front of a body.
pub proof fn lemma_head_tag(t: Seq<u8>, m: Seq<u8>)
    requires
        is_head(t),
    ensures
        t.len() >= 2,
        t[0] == 60,
        t.last() == 62,
        tag_stop(t, 0) == t.len(),
        tag_stop(t + m, 0) == t.len(),
        tag_at(t + m, 0) == t,
        (t + m).skip(t.len() as int) == m,
        forall|k: int| 0 < k < t.len() ==> #[trigger] t[k] != 60,
{
    lemma_sheet_ends();
    lemma_byte_at(t, utf8("<row "@), 0, 0);
    lemma_tag_in_front(t, m, 0);
    crate::laws::tidy::lemma_tidy_tag(t, 0);
    assert(tag_at(t, 0).len() == tag_stop(t, 0));
    assert((t + m).skip(t.len() as int) =~= m);
}

/// A cell of a row stands in its body, and is taken out of it.
pub proof fn lemma_row_without(t: Seq<u8>, m: Seq<u8>, coord: Seq<char>)
    requires
        is_head(t),
    ensures
        cell_start(t + m, coord) == moved(tag_of(m, "<c "@, coord, 0), t.len() as int),
        without_cell(t + m, coord) == t + body_without(m, coord),
{
    lemma_head_tag(t, m);
    lemma_tag_of_back(t, m, "<c "@, coord, 0);
    lemma_tag_of(m, "<c "@, coord, 0);
    if let Some(s) = tag_of(m, "<c "@, coord, 0) {
        lemma_stop_back(t, m, s, "</c>"@);
        if let Some(e) = element_stop(m, s, "</c>"@) {
            crate::tags::lemma_tag_stop(m, s);
            lemma_find_from(m, utf8("</c>"@), tag_stop(m, s));
            assert(replace(t + m, t.len() + s, t.len() + e, Seq::empty()) =~= t + body_without(
                m,
                coord,
            ));
        }
    }
}

/// Where a cell goes in a row is where it goes in its body.
pub proof fn lemma_row_slot(t: Seq<u8>, m: Seq<u8>, column: u32)
    requires
        is_head(t),
    ensures
        cell_slot(t + m, column) == moved(body_slot(m, column), t.len() as int),
{
    lemma_head_tag(t, m);
    lemma_later_back(t, m, column, 0);
}

/// What is put into a row behind its tag is put into its body.
pub proof fn lemma_insert_behind(t: Seq<u8>, m: Seq<u8>, at: int, new: Seq<u8>)
    requires
        0 <= at <= m.len(),
    ensures
        insert(t + m, t.len() + at, new) == t + insert(m, at, new),
{
    assert(insert(t + m, t.len() + at, new) =~= t + insert(m, at, new));
}

/// A cell of a row is set in its body.
#[verifier::spinoff_prover]
#[verifier::rlimit(60)]
pub proof fn lemma_row_body(t: Seq<u8>, m: Seq<u8>, coord: Seq<char>, value: Seq<char>)
    requires
        is_head(t),
        utf8("</row>"@).len() <= body_without(m, coord).len(),
    ensures
        with_cell(t + m, coord, value) == (match body_with(m, coord, value) {
            Some(set) => Some(t + set),
            None => None,
        }),
{
    lemma_row_without(t, m, coord);
    let rest = body_without(m, coord);
    if let Some(column) = leading_column(utf8(coord)) {
        lemma_row_slot(t, rest, column);
        lemma_later_cell(rest, column, 0);
        if let Some(at) = body_slot(rest, column) {
            lemma_insert_behind(t, rest, at, written_cell(coord, value));
        }
    }
}

/// The pieces in front of a slot of a body and behind it.
#[verifier::spinoff_prover]
#[verifier::rlimit(60)]
pub proof fn lemma_slot_pieces(m: Seq<u8>, column: u32)
    requires
        is_body(m),
        body_slot(m, column) is Some,
    ensures
        ({
            let at = body_slot(m, column)->0;
            let a = m.take(at);
            let b = m.skip(at);
            &&& 0 <= at < m.len()
            &&& m == a + b
            &&& tidy(a)
            &&& tidy(b)
            &&& b.len() >= 6
            &&& later_cell(a, column, 0) == Some(None::<int>)
            &&& later_cell(b, column, 0) == Some(Some(0int)) || (later_cell(b, column, 0) == Some(
                None::<int>,
            ) && b.len() == utf8("</row>"@).len())
        }),
{
    let at = body_slot(m, column)->0;
    let close = utf8("</row>"@);
    lemma_opens();
    lemma_later_cell(m, column, 0);
    lemma_find_from(m, close, 0);
    let a = m.take(at);
    let b = m.skip(at);
    assert(m =~= a + b);
    if later_cell(m, column, 0) == Some(None::<int>) {
        lemma_byte_at(m, close, at, 0);
    } else {
        lemma_byte_at(m, utf8("<c "@), at, 0);
        if at > m.len() - 6 {
            lemma_byte_at(m, close, m.len() - 6, at - (m.len() - 6));
        }
    }
    assert(b[0] == 60);
    lemma_tidy_split(a, b);
    lemma_later_pieces(a, b, column, 0);
    lemma_later_cell(a, column, 0);
    lemma_later_cell(b, column, 0);
    if let Some(Some(p)) = later_cell(a, column, 0) {
        assert(p < a.len());
    }
}

/// A body with a piece put in that holds no end of a row.
pub proof fn lemma_body_insert(a: Seq<u8>, k: Seq<u8>, b: Seq<u8>)
    requires
        is_body(a + b),
        tidy(a),
        tidy(k),
        tidy(b),
        b.len() > 0,
        find(k, utf8("</row>"@)) is None,
        find(k, utf8("<row "@)) is None,
        find(k, utf8("</sheetData>"@)) is None,
    ensures
        is_body(a + k + b),
{
    let close = utf8("</row>"@);
    lemma_sheet_ends();
    lemma_opens();
    assert(a + k + b =~= a + (k + b));
    lemma_tidy_join(k, b);
    lemma_tidy_join(a, k + b);
    lemma_find_from(a, close, 0);
    lemma_find_pieces(a, b, close, 0);
    lemma_find_pieces(a, k + b, close, 0);
    lemma_find_pieces(k, b, close, 0);
    lemma_find_pieces(a, b, utf8("<row "@), 0);
    lemma_find_pieces(a, k + b, utf8("<row "@), 0);
    lemma_find_pieces(k, b, utf8("<row "@), 0);
    lemma_find_pieces(a, b, utf8("</sheetData>"@), 0);
    lemma_find_pieces(a, k + b, utf8("</sheetData>"@), 0);
    lemma_find_pieces(k, b, utf8("</sheetData>"@), 0);
}

/// A body with a cell taken out.
#[verifier::spinoff_prover]
#[verifier::rlimit(60)]
pub proof fn lemma_body_remove(a: Seq<u8>, k: Seq<u8>, b: Seq<u8>, coord: Seq<char>)
    requires
        is_body(a + k + b),
        tidy(a),
        tidy(b),
        is_element(k, "<c "@, "</c>"@, coord),
    ensures
        is_body(a + b),
        b.len() >= 6,
{
    let close = utf8("</row>"@);
    let m = a + k + b;
    lemma_sheet_ends();
    lemma_opens();
    lemma_element_end(k, "<c "@, "</c>"@, coord);
    assert(m =~= a + (k + b));
    lemma_find_from(m, close, 0);
    assert(k[k.len() - 2] != 119) by {
        let stop = tag_stop(k, 0);
        if is_closed(tag_at(k, 0)) {
        } else {
            lemma_find_from(k, utf8("</c>"@), stop);
            lemma_byte_at(k, utf8("</c>"@), k.len() - 4, 2);
        }
    }
    if b.len() == 0 {
        lemma_byte_at(m, close, m.len() - 6, 4);
        assert(m[m.len() - 2] == k[k.len() - 2]);
    }
    lemma_tidy_join(a, b);
    lemma_find_from(a, close, 0);
    lemma_find_from(k, close, 0);
    lemma_find_pieces(a, b, close, 0);
    lemma_find_pieces(a, k + b, close, 0);
    lemma_find_pieces(k, b, close, 0);
    lemma_find_pieces(a, b, utf8("<row "@), 0);
    lemma_find_pieces(a, k + b, utf8("<row "@), 0);
    lemma_find_pieces(k, b, utf8("<row "@), 0);
    lemma_find_pieces(a, b, utf8("</sheetData>"@), 0);
    lemma_find_pieces(a, k + b, utf8("</sheetData>"@), 0);
    lemma_find_pieces(k, b, utf8("</sheetData>"@), 0);
}

/// The pieces around a cell of a body.
#[verifier::spinoff_prover]
#[verifier::rlimit(60)]
pub proof fn lemma_cell_pieces(m: Seq<u8>, coord: Seq<char>)
    requires
        is_body(m),
        body_holds(m, coord),
    ensures
        is_body(body_without(m, coord)),
        tag_of(body_without(m, coord), "<c "@, coord, 0) is None,
        tag_of(m, "<c "@, coord, 0) matches Some(s) ==> {
            let e = element_stop(m, s, "</c>"@)->0;
            let a = m.take(s);
            let k = m.subrange(s, e);
            let b = m.skip(e);
            &&& 0 <= s < e < m.len()
            &&& m == a + k + b
            &&& body_without(m, coord) == a + b
            &&& tidy(a)
            &&& tidy(b)
            &&& b.len() >= 6
            &&& is_element(k, "<c "@, "</c>"@, coord)
            &&& tag_of(a, "<c "@, coord, 0) is None
            &&& tag_of(b, "<c "@, coord, 0) is None
        },
{
    lemma_sheet_ends();
    if let Some(s) = tag_of(m, "<c "@, coord, 0) {
        let e = element_stop(m, s, "</c>"@)->0;
        lemma_element_pieces(m, "<c "@, "</c>"@, coord, 0, s, e);
        let a = m.take(s);
        let k = m.subrange(s, e);
        let b = m.skip(e);
        assert(replace(m, s, e, Seq::empty()) =~= a + b);
        lemma_body_remove(a, k, b, coord);
        lemma_tag_of_pieces(a, b, "<c "@, coord, 0);
    }
}

/// A cell that was put into a body without it: the body, where the cell stands, and what is left when
/// it is taken out.
#[verifier::spinoff_prover]
#[verifier::rlimit(60)]
pub proof fn lemma_cell_put(m: Seq<u8>, coord: Seq<char>, value: Seq<char>)
    requires
        is_cell_name(coord),
        is_body(m),
        tag_of(m, "<c "@, coord, 0) is None,
        leading_column(utf8(coord)) is Some,
        body_slot(m, leading_column(utf8(coord))->0) is Some,
    ensures
        ({
            let at = body_slot(m, leading_column(utf8(coord))->0)->0;
            let cell = written_cell(coord, value);
            let set = insert(m, at, cell);
            &&& set == m.take(at) + cell + m.skip(at)
            &&& is_body(set)
            &&& tag_of(set, "<c "@, coord, 0) == Some(at)
            &&& element_stop(set, at, "</c>"@) == Some((at + cell.len()) as int)
            &&& set.subrange(at, (at + cell.len()) as int) == cell
            &&& body_without(set, coord) == m
            &&& body_places(set, coord)
        }),
{
    let column = leading_column(utf8(coord))->0;
    let at = body_slot(m, column)->0;
    let cell = written_cell(coord, value);
    let set = insert(m, at, cell);
    lemma_sheet_ends();
    lemma_written_cell(coord, value);
    lemma_slot_pieces(m, column);
    let a = m.take(at);
    let b = m.skip(at);
    assert(set =~= a + cell + b);
    lemma_body_insert(a, cell, b);
    lemma_tag_of_pieces(a, b, "<c "@, coord, 0);
    lemma_element_found(a, cell, b, "<c "@, "</c>"@, coord, 0);
    assert(replace(set, at, at + cell.len(), Seq::empty()) =~= m);
}

/// Setting a cell of a body that has it once at most.
pub proof fn lemma_cell_set(m: Seq<u8>, coord: Seq<char>, value: Seq<char>)
    requires
        is_cell_name(coord),
        is_body(m),
        body_holds(m, coord),
        body_with(m, coord, value) is Some,
    ensures
        ({
            let set = body_with(m, coord, value)->0;
            let rest = body_without(m, coord);
            let at = body_slot(rest, leading_column(utf8(coord))->0)->0;
            let cell = written_cell(coord, value);
            &&& is_body(set)
            &&& tag_of(set, "<c "@, coord, 0) == Some(at)
            &&& element_stop(set, at, "</c>"@) == Some((at + cell.len()) as int)
            &&& set.subrange(at, (at + cell.len()) as int) == cell
            &&& body_without(set, coord) == rest
            &&& body_places(set, coord)
        }),
{
    lemma_cell_pieces(m, coord);
    lemma_cell_put(body_without(m, coord), coord, value);
}

/// A cell between two pieces of a body.
pub proof fn lemma_in_body(p: Seq<u8>, k: Seq<u8>, q: Seq<u8>, coord: Seq<char>)
    requires
        tidy(p),
        is_element(k, "<c "@, "</c>"@, coord),
        tag_of(p, "<c "@, coord, 0) is None,
        tag_of(q, "<c "@, coord, 0) is None,
    ensures
        ({
            let m = p + k + q;
            &&& tag_of(m, "<c "@, coord, 0) == Some(p.len() as int)
            &&& tag_at(m, p.len() as int) == tag_at(k, 0)
            &&& cell_text(m, coord) == Some(k)
            &&& body_without(m, coord) == p + q
            &&& body_holds(m, coord)
        }),
{
    let m = p + k + q;
    lemma_sheet_ends();
    lemma_element_end(k, "<c "@, "</c>"@, coord);
    lemma_element_found(p, k, q, "<c "@, "</c>"@, coord, 0);
    assert(m =~= p + (k + q));
    lemma_tag_behind(p, k + q, 0);
    lemma_tag_in_front(k, q, 0);
    assert(replace(m, p.len() as int, (p.len() + k.len()) as int, Seq::empty()) =~= p + q);
    lemma_tag_of_pieces(p, q, "<c "@, coord, 0);
}

/// A cell of a body holds nothing of a row or of the end of the data.
pub proof fn lemma_cell_holds_no_row(p: Seq<u8>, k: Seq<u8>, q: Seq<u8>)
    requires
        is_body(p + (k + q)),
        tidy(p),
        tidy(k),
        q.len() > 0,
    ensures
        find(k, utf8("</row>"@)) is None,
        find(k, utf8("<row "@)) is None,
        find(k, utf8("</sheetData>"@)) is None,
{
    lemma_sheet_ends();
    lemma_opens();
    lemma_find_pieces(p, k + q, utf8("</row>"@), 0);
    lemma_find_pieces(k, q, utf8("</row>"@), 0);
    lemma_find_from(p, utf8("</row>"@), 0);
    lemma_find_from(k, utf8("</row>"@), 0);
    lemma_find_pieces(p, k + q, utf8("<row "@), 0);
    lemma_find_pieces(k, q, utf8("<row "@), 0);
    lemma_find_pieces(p, k + q, utf8("</sheetData>"@), 0);
    lemma_find_pieces(k, q, utf8("</sheetData>"@), 0);
}

} // verus!
