//! The other cells of a row when one of them is changed.

use vstd::prelude::*;
use crate::bytes::{insert, lemma_find_from, occurs_at};
use crate::coord::is_cell_name;
use crate::laws::bodies::{
    body_holds, body_slot, body_with, body_without, cell_text, is_body, lemma_cell_holds_no_row,
    lemma_cell_pieces, lemma_in_body, lemma_later_cell, lemma_slot_pieces,
};
use crate::laws::commuting::lemma_other_element;
use crate::laws::shapes::{lemma_sheet_ends, lemma_written_cell};
use crate::laws::tidy::{
    is_element, lemma_element_end, lemma_occurs_back, lemma_occurs_front, lemma_tag_behind,
    lemma_tag_in_front, lemma_tag_of_pieces, lemma_tidy_join, lemma_tidy_split, tidy,
};
use crate::sheet::{leading_column, lemma_opens, written_cell};
use crate::tags::{element_stop, tag_of};
use crate::text::utf8;

verus! {

/// A cell or the end of the row starts at `at`.
pub open spec fn starts_cell(m: Seq<u8>, at: int) -> bool {
    occurs_at(m, utf8("<c "@), at) || occurs_at(m, utf8("</row>"@), at)
}

/// The cell `coord` between two pieces of a body, or a place where a cell can go.
pub open spec fn cell_between(p: Seq<u8>, k: Seq<u8>, q: Seq<u8>, coord: Seq<char>) -> bool {
    &&& is_body(p + k + q)
    &&& tidy(p)
    &&& tidy(q)
    &&& is_element(k, "<c "@, "</c>"@, coord) || (k.len() == 0 && starts_cell(q, 0))
}

/// Two cells of a body stand apart.
#[verifier::spinoff_prover]
#[verifier::rlimit(60)]
proof fn lemma_cells_apart(
    p: Seq<u8>,
    k: Seq<u8>,
    q: Seq<u8>,
    coord: Seq<char>,
    c: Seq<u8>,
    x: Seq<u8>,
    d: Seq<u8>,
    other: Seq<char>,
)
    requires
        utf8(coord) != utf8(other),
        cell_between(p, k, q, coord),
        tidy(c),
        is_element(x, "<c "@, "</c>"@, other),
        d.len() > 0,
        p + k + q == c + x + d,
    ensures
        c.len() + x.len() <= p.len() || p.len() + k.len() <= c.len(),
{
    let m = p + k + q;
    let open = utf8("<c "@);
    let close = utf8("</row>"@);
    lemma_sheet_ends();
    lemma_opens();
    assert(m =~= p + (k + q));
    assert(m =~= c + (x + d));
    if p.len() < c.len() + x.len() && c.len() < p.len() + k.len() {
        if c.len() < p.len() {
            let n = p.len() - c.len();
            assert(starts_cell(k + q, 0)) by {
                if k.len() > 0 {
                    assert((k + q).subrange(0, 3) =~= k.subrange(0, 3));
                } else {
                    assert(k + q =~= q);
                }
            }
            lemma_cell_holds_no_row(c, x, d);
            lemma_occurs_back(p, k + q, open, 0);
            lemma_occurs_back(p, k + q, close, 0);
            lemma_occurs_back(c, x + d, open, n);
            lemma_occurs_back(c, x + d, close, n);
            lemma_occurs_front(x, d, open, n);
            lemma_occurs_front(x, d, close, n);
            lemma_find_from(x, open, 1);
            lemma_find_from(x, close, 0);
        } else if c.len() == p.len() {
            lemma_element_end(k, "<c "@, "</c>"@, coord);
            lemma_element_end(x, "<c "@, "</c>"@, other);
            lemma_tag_behind(p, k + q, 0);
            lemma_tag_in_front(k, q, 0);
            lemma_tag_behind(c, x + d, 0);
            lemma_tag_in_front(x, d, 0);
        } else {
            let n = c.len() - p.len();
            assert((x + d).subrange(0, 3) =~= x.subrange(0, 3));
            lemma_occurs_back(c, x + d, open, 0);
            lemma_occurs_back(p, k + q, open, n);
            lemma_occurs_front(k, q, open, n);
            lemma_find_from(k, open, 1);
        }
    }
}

/// What stands between two cells of a body.
#[verifier::spinoff_prover]
#[verifier::rlimit(60)]
proof fn lemma_between_cells(
    p: Seq<u8>,
    k: Seq<u8>,
    q: Seq<u8>,
    coord: Seq<char>,
    c: Seq<u8>,
    x: Seq<u8>,
    d: Seq<u8>,
    other: Seq<char>,
) -> (between: Seq<u8>)
    requires
        utf8(coord) != utf8(other),
        cell_between(p, k, q, coord),
        tidy(c),
        tidy(d),
        is_element(x, "<c "@, "</c>"@, other),
        d.len() > 0,
        p + k + q == c + x + d,
    ensures
        tidy(between),
        (p == c + x + between && d == between + k + q) || (c == p + k + between && q == between + x
            + d),
{
    let m = p + k + q;
    lemma_sheet_ends();
    lemma_cells_apart(p, k, q, coord, c, x, d, other);
    lemma_element_end(x, "<c "@, "</c>"@, other);
    if c.len() + x.len() <= p.len() {
        let between = m.subrange((c.len() + x.len()) as int, p.len() as int);
        assert(p =~= m.take(p.len() as int));
        assert(p =~= c + x + between);
        assert(d =~= m.skip((c.len() + x.len()) as int));
        assert(d =~= between + k + q);
        assert((c + x).last() == 62);
        lemma_tidy_split(c + x, between);
        between
    } else {
        let between = m.subrange((p.len() + k.len()) as int, c.len() as int);
        assert(c =~= m.take(c.len() as int));
        assert(c =~= p + k + between);
        assert(q =~= m.skip((p.len() + k.len()) as int));
        assert(q =~= between + x + d);
        assert(q =~= between + (x + d));
        assert((x + d)[0] == 60);
        lemma_tidy_split(between, x + d);
        between
    }
}

/// A piece that a body holds does not refer to a cell that three pieces do not refer to.
proof fn lemma_none_of_three(a: Seq<u8>, b: Seq<u8>, c: Seq<u8>, other: Seq<char>)
    requires
        tidy(a),
        tidy(b),
    ensures
        (tag_of(a + b + c, "<c "@, other, 0) is None) == (tag_of(a, "<c "@, other, 0) is None
            && tag_of(b, "<c "@, other, 0) is None && tag_of(c, "<c "@, other, 0) is None),
{
    lemma_sheet_ends();
    assert(a + b + c =~= a + (b + c));
    lemma_tag_of_pieces(a, b + c, "<c "@, other, 0);
    lemma_tag_of_pieces(b, c, "<c "@, other, 0);
}

/// A cell that is changed, added or taken out leaves another one as it was.
#[verifier::spinoff_prover]
#[verifier::rlimit(60)]
pub proof fn lemma_neighbour(
    p: Seq<u8>,
    k: Seq<u8>,
    q: Seq<u8>,
    new: Seq<u8>,
    coord: Seq<char>,
    other: Seq<char>,
)
    requires
        utf8(coord) != utf8(other),
        cell_between(p, k, q, coord),
        new.len() == 0 || is_element(new, "<c "@, "</c>"@, coord),
        body_holds(p + k + q, other),
    ensures
        body_holds(p + new + q, other),
        cell_text(p + new + q, other) == cell_text(p + k + q, other),
        (tag_of(p + new + q, "<c "@, other, 0) is None) == (tag_of(p + k + q, "<c "@, other, 0) is None),
{
    let m = p + k + q;
    lemma_sheet_ends();
    lemma_empty_tidy(k, coord);
    lemma_empty_tidy(new, coord);
    lemma_no_other(k, coord, other);
    lemma_no_other(new, coord, other);
    lemma_cell_pieces(m, other);
    match tag_of(m, "<c "@, other, 0) {
        None => {
            lemma_none_of_three(p, k, q, other);
            lemma_none_of_three(p, new, q, other);
        },
        Some(s) => {
            let e = element_stop(m, s, "</c>"@)->0;
            let c = m.take(s);
            let x = m.subrange(s, e);
            let d = m.skip(e);
            let between = lemma_between_cells(p, k, q, coord, c, x, d, other);
            lemma_in_body(c, x, d, other);
            if p == c + x + between && d == between + k + q {
                lemma_none_of_three(between, k, q, other);
                lemma_none_of_three(between, new, q, other);
                lemma_in_body(c, x, between + new + q, other);
                assert(p + new + q =~= c + x + (between + new + q));
            } else {
                lemma_none_of_three(p, k, between, other);
                lemma_none_of_three(p, new, between, other);
                lemma_tidy_join(p, new);
                lemma_tidy_join(p + new, between);
                lemma_in_body(p + new + between, x, d, other);
                assert(p + new + q =~= (p + new + between) + x + d);
            }
        },
    }
}

/// A body has every cell but `coord` as `m` has it.
pub open spec fn keeps_others(m: Seq<u8>, set: Seq<u8>, coord: Seq<char>) -> bool {
    forall|other: Seq<char>| #[trigger]
        body_holds(m, other) && utf8(coord) != utf8(other) ==> {
            &&& body_holds(set, other)
            &&& cell_text(set, other) == cell_text(m, other)
        }
}

/// A cell that is changed, added or taken out leaves the others as they were.
pub proof fn lemma_keeps_others(
    p: Seq<u8>,
    k: Seq<u8>,
    q: Seq<u8>,
    new: Seq<u8>,
    coord: Seq<char>,
)
    requires
        cell_between(p, k, q, coord),
        new.len() == 0 || is_element(new, "<c "@, "</c>"@, coord),
    ensures
        keeps_others(p + k + q, p + new + q, coord),
{
    assert forall|other: Seq<char>| #[trigger]
        body_holds(p + k + q, other) && utf8(coord) != utf8(other) implies {
        &&& body_holds(p + new + q, other)
        &&& cell_text(p + new + q, other) == cell_text(p + k + q, other)
    } by {
        lemma_neighbour(p, k, q, new, coord, other);
    }
}

/// A cell or nothing is tidy.
proof fn lemma_empty_tidy(k: Seq<u8>, coord: Seq<char>)
    requires
        k.len() == 0 || is_element(k, "<c "@, "</c>"@, coord),
    ensures
        tidy(k),
{
}

/// A cell or nothing refers to no other cell.
proof fn lemma_no_other(k: Seq<u8>, coord: Seq<char>, other: Seq<char>)
    requires
        utf8(coord) != utf8(other),
        k.len() == 0 || is_element(k, "<c "@, "</c>"@, coord),
    ensures
        tag_of(k, "<c "@, other, 0) is None,
{
    lemma_opens();
    if k.len() == 0 {
        lemma_find_from(k, utf8("<c "@), 0);
    } else {
        lemma_other_element(k, "<c "@, "</c>"@, coord, other);
    }
}

/// Setting a cell of a body leaves another one as it was.
#[verifier::spinoff_prover]
#[verifier::rlimit(60)]
pub proof fn lemma_set_neighbour(
    m: Seq<u8>,
    coord: Seq<char>,
    value: Seq<char>,
    other: Seq<char>,
)
    requires
        is_cell_name(coord),
        utf8(coord) != utf8(other),
        is_body(m),
        body_holds(m, coord),
        body_holds(m, other),
        body_with(m, coord, value) is Some,
    ensures
        body_holds(body_with(m, coord, value)->0, other),
        cell_text(body_with(m, coord, value)->0, other) == cell_text(m, other),
{
    let none = Seq::<u8>::empty();
    let rest = body_without(m, coord);
    let column = leading_column(utf8(coord))->0;
    let at = body_slot(rest, column)->0;
    let cell = written_cell(coord, value);
    lemma_cell_pieces(m, coord);
    if let Some(s) = tag_of(m, "<c "@, coord, 0) {
        let e = element_stop(m, s, "</c>"@)->0;
        let p = m.take(s);
        let q = m.skip(e);
        lemma_neighbour(p, m.subrange(s, e), q, none, coord, other);
        assert(p + none + q =~= p + q);
    }
    lemma_written_cell(coord, value);
    lemma_slot_pieces(rest, column);
    lemma_slot_starts(rest, column);
    let a = rest.take(at);
    let b = rest.skip(at);
    assert(a + none + b =~= rest);
    lemma_neighbour(a, none, b, cell, coord, other);
    assert(insert(rest, at, cell) =~= a + cell + b);
}

/// A cell goes in front of another one or of the end of the row.
proof fn lemma_slot_starts(m: Seq<u8>, column: u32)
    requires
        is_body(m),
        body_slot(m, column) is Some,
    ensures
        starts_cell(m.skip(body_slot(m, column)->0), 0),
{
    let at = body_slot(m, column)->0;
    let a = m.take(at);
    let b = m.skip(at);
    lemma_opens();
    lemma_slot_pieces(m, column);
    lemma_later_cell(m, column, 0);
    lemma_find_from(m, utf8("</row>"@), 0);
    lemma_occurs_back(a, b, utf8("<c "@), 0);
    lemma_occurs_back(a, b, utf8("</row>"@), 0);
}

} // verus!
