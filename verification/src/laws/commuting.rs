//! Two cells of a row, set one after the other.

use vstd::prelude::*;
use crate::bytes::{find_from, insert, lemma_find_from, replace};
use crate::coord::is_cell_name;
use crate::laws::bodies::{
    body_holds, body_places, body_slot, body_with, body_without, is_body, lemma_cell_pieces,
    lemma_later_cell, lemma_later_of_cell, lemma_later_order, lemma_later_pieces, lemma_slot_pieces,
};
use crate::laws::pieces::lemma_byte_at;
use crate::laws::shapes::{lemma_sheet_ends, lemma_written_cell};
use crate::laws::tidy::{
    is_element, lemma_element_end, lemma_element_found, lemma_occurs_back, lemma_occurs_front,
    lemma_tag_of_pieces, lemma_tidy_join, lemma_tidy_split, tidy,
};
use crate::sheet::{later_cell, leading_column, lemma_opens, written_cell};
use crate::tags::{element_stop, lemma_tag_of, tag_of};
use crate::text::utf8;

verus! {

/// An element that refers to one value does not refer to another.
pub proof fn lemma_other_element(
    k: Seq<u8>,
    open: Seq<char>,
    close: Seq<char>,
    value: Seq<char>,
    other: Seq<char>,
)
    requires
        is_element(k, open, close, value),
        utf8(value) != utf8(other),
    ensures
        tag_of(k, open, other, 0) is None,
{
    lemma_find_from(k, utf8(open), 0);
    lemma_find_from(k, utf8(open), 1);
    if let Some(p) = find_from(k, utf8(open), 0) {
        assert(p == 0);
        assert(tag_of(k, open, other, 1) is None);
    }
}

/// A cell of column `column` goes in front of `b`.
spec fn goes_before(b: Seq<u8>, column: u32) -> bool {
    later_cell(b, column, 0) == Some(Some(0int)) || (later_cell(b, column, 0) == Some(None::<int>)
        && b.len() == utf8("</row>"@).len())
}

/// A cell goes between two pieces of a body.
proof fn lemma_slot_between(a: Seq<u8>, b: Seq<u8>, column: u32)
    requires
        tidy(a),
        b.len() >= 6,
    ensures
        (body_slot(a + b, column) == Some(a.len() as int)) == (later_cell(a, column, 0) == Some(
            None::<int>,
        ) && goes_before(b, column)),
{
    lemma_opens();
    lemma_later_pieces(a, b, column, 0);
    lemma_later_cell(a, column, 0);
    lemma_later_cell(b, column, 0);
    if let Some(Some(p)) = later_cell(a, column, 0) {
        assert(p < a.len());
    }
}

/// The end of a body holds no cell.
proof fn lemma_end_of_body(a: Seq<u8>, b: Seq<u8>, column: u32)
    requires
        is_body(a + b),
        b.len() == utf8("</row>"@).len(),
    ensures
        later_cell(b, column, 0) == Some(None::<int>),
{
    let close = utf8("</row>"@);
    let open = utf8("<c "@);
    lemma_opens();
    lemma_find_from(a + b, close, 0);
    lemma_occurs_back(a, b, close, 0);
    lemma_find_from(b, open, 0);
    if let Some(p) = find_from(b, open, 0) {
        lemma_byte_at(b, open, p, 0);
        lemma_byte_at(b, open, p, 1);
        lemma_byte_at(b, close, 0, p);
        lemma_byte_at(b, close, 0, p + 1);
    }
}

/// What a cell goes in front of, cells of earlier columns go in front of too.
proof fn lemma_goes_before(a: Seq<u8>, b: Seq<u8>, column: u32, other: u32)
    requires
        is_body(a + b),
        goes_before(b, other),
        column <= other,
    ensures
        goes_before(b, column),
{
    lemma_later_order(b, column, other, 0);
    if b.len() == utf8("</row>"@).len() {
        lemma_end_of_body(a, b, column);
    }
    lemma_later_cell(b, column, 0);
}

/// Two pieces in front of a third.
proof fn lemma_none_later(a: Seq<u8>, b: Seq<u8>, column: u32)
    requires
        tidy(a),
    ensures
        (later_cell(a + b, column, 0) == Some(None::<int>)) == (later_cell(a, column, 0) == Some(
            None::<int>,
        ) && later_cell(b, column, 0) == Some(None::<int>)),
{
    lemma_later_pieces(a, b, column, 0);
}

/// Two cells that a body does not have, put in one after the other.
#[verifier::spinoff_prover]
#[verifier::rlimit(60)]
proof fn lemma_put_both(
    z: Seq<u8>,
    a: Seq<char>,
    va: Seq<char>,
    b: Seq<char>,
    vb: Seq<char>,
)
    requires
        is_cell_name(a),
        is_cell_name(b),
        is_body(z),
        tag_of(z, "<c "@, a, 0) is None,
        tag_of(z, "<c "@, b, 0) is None,
        leading_column(utf8(a)) is Some,
        leading_column(utf8(b)) is Some,
        leading_column(utf8(a))->0 < leading_column(utf8(b))->0,
        body_slot(z, leading_column(utf8(a))->0) is Some,
        body_slot(z, leading_column(utf8(b))->0) is Some,
    ensures
        ({
            let ca = leading_column(utf8(a))->0;
            let cb = leading_column(utf8(b))->0;
            let za = insert(z, body_slot(z, ca)->0, written_cell(a, va));
            let zb = insert(z, body_slot(z, cb)->0, written_cell(b, vb));
            &&& body_slot(za, cb) is Some
            &&& body_slot(zb, ca) is Some
            &&& insert(za, body_slot(za, cb)->0, written_cell(b, vb)) == insert(
                zb,
                body_slot(zb, ca)->0,
                written_cell(a, va),
            )
        }),
{
    let ca = leading_column(utf8(a))->0;
    let cb = leading_column(utf8(b))->0;
    let sa = body_slot(z, ca)->0;
    let sb = body_slot(z, cb)->0;
    let ka = written_cell(a, va);
    let kb = written_cell(b, vb);
    let z1 = z.take(sa);
    let z2 = z.subrange(sa, sb);
    let z3 = z.skip(sb);
    lemma_written_cell(a, va);
    lemma_written_cell(b, vb);
    lemma_three_pieces(z, ca, cb);
    lemma_put_between(z1, ka, z2, kb, z3, a, b);
    assert(z =~= z1 + z2 + z3);
    lemma_inserts(z1, ka, z2, kb, z3);
}

/// Two elements put between three pieces, in either order.
proof fn lemma_inserts(z1: Seq<u8>, ka: Seq<u8>, z2: Seq<u8>, kb: Seq<u8>, z3: Seq<u8>)
    ensures
        insert(z1 + z2 + z3, z1.len() as int, ka) == z1 + ka + z2 + z3,
        insert(z1 + z2 + z3, (z1 + z2).len() as int, kb) == z1 + z2 + kb + z3,
        insert(z1 + ka + z2 + z3, (z1 + ka + z2).len() as int, kb) == insert(
            z1 + z2 + kb + z3,
            z1.len() as int,
            ka,
        ),
{
    assert(insert(z1 + z2 + z3, z1.len() as int, ka) =~= z1 + ka + z2 + z3);
    assert(insert(z1 + z2 + z3, (z1 + z2).len() as int, kb) =~= z1 + z2 + kb + z3);
    assert(insert(z1 + ka + z2 + z3, (z1 + ka + z2).len() as int, kb) =~= insert(
        z1 + z2 + kb + z3,
        z1.len() as int,
        ka,
    ));
}

/// The pieces around the slots of two columns.
#[verifier::spinoff_prover]
#[verifier::rlimit(60)]
proof fn lemma_three_pieces(z: Seq<u8>, ca: u32, cb: u32)
    requires
        is_body(z),
        ca <= cb,
        body_slot(z, ca) is Some,
        body_slot(z, cb) is Some,
    ensures
        ({
            let sa = body_slot(z, ca)->0;
            let sb = body_slot(z, cb)->0;
            let z1 = z.take(sa);
            let z2 = z.subrange(sa, sb);
            let z3 = z.skip(sb);
            &&& 0 <= sa <= sb <= z.len()
            &&& tidy(z1)
            &&& tidy(z2)
            &&& later_cell(z1, ca, 0) == Some(None::<int>)
            &&& later_cell(z1, cb, 0) == Some(None::<int>)
            &&& later_cell(z2, cb, 0) == Some(None::<int>)
            &&& goes_before(z2 + z3, ca)
            &&& goes_before(z3, cb)
            &&& z3.len() >= 6
        }),
{
    let sa = body_slot(z, ca)->0;
    let sb = body_slot(z, cb)->0;
    lemma_opens();
    lemma_slot_pieces(z, ca);
    lemma_slot_pieces(z, cb);
    lemma_later_order(z, ca, cb, 0);
    let z1 = z.take(sa);
    let z2 = z.subrange(sa, sb);
    let z3 = z.skip(sb);
    assert(z.skip(sa) =~= z2 + z3);
    assert(z.take(sb) =~= z1 + z2);
    lemma_none_later(z1, z2, cb);
    lemma_slot_byte(z, cb);
    assert(z3[0] == 60);
    lemma_tidy_split(z2, z3);
}

/// A cell goes in front of a tag.
proof fn lemma_slot_byte(z: Seq<u8>, column: u32)
    requires
        is_body(z),
        body_slot(z, column) is Some,
    ensures
        0 <= body_slot(z, column)->0 < z.len(),
        z[body_slot(z, column)->0] == 60,
{
    lemma_opens();
    lemma_find_from(z, utf8("</row>"@), 0);
    lemma_later_cell(z, column, 0);
    let at = body_slot(z, column)->0;
    if later_cell(z, column, 0) == Some(None::<int>) {
        lemma_byte_at(z, utf8("</row>"@), at, 0);
    } else {
        lemma_byte_at(z, utf8("<c "@), at, 0);
    }
}

/// Where two cells go that are put between three pieces.
#[verifier::spinoff_prover]
#[verifier::rlimit(60)]
proof fn lemma_put_between(
    z1: Seq<u8>,
    ka: Seq<u8>,
    z2: Seq<u8>,
    kb: Seq<u8>,
    z3: Seq<u8>,
    a: Seq<char>,
    b: Seq<char>,
)
    requires
        tidy(z1),
        tidy(z2),
        is_element(ka, "<c "@, "</c>"@, a),
        is_element(kb, "<c "@, "</c>"@, b),
        leading_column(utf8(a)) is Some,
        leading_column(utf8(b)) is Some,
        leading_column(utf8(a))->0 < leading_column(utf8(b))->0,
        later_cell(z1, leading_column(utf8(a))->0, 0) == Some(None::<int>),
        later_cell(z1, leading_column(utf8(b))->0, 0) == Some(None::<int>),
        later_cell(z2, leading_column(utf8(b))->0, 0) == Some(None::<int>),
        goes_before(z2 + z3, leading_column(utf8(a))->0),
        goes_before(z3, leading_column(utf8(b))->0),
        z3.len() >= 6,
    ensures
        body_slot(z1 + ka + z2 + z3, leading_column(utf8(b))->0) == Some(
            (z1 + ka + z2).len() as int,
        ),
        body_slot(z1 + z2 + kb + z3, leading_column(utf8(a))->0) == Some(z1.len() as int),
{
    let ca = leading_column(utf8(a))->0;
    let cb = leading_column(utf8(b))->0;
    lemma_opens();
    lemma_element_end_of_cell(ka, a);
    lemma_element_end_of_cell(kb, b);
    lemma_later_of_cell(ka, a, cb);
    lemma_later_of_cell(kb, b, ca);
    lemma_tidy_join(z1, ka);
    lemma_tidy_join(z1 + ka, z2);
    lemma_none_later(z1, ka, cb);
    lemma_none_later(z1 + ka, z2, cb);
    lemma_slot_between(z1 + ka + z2, z3, cb);
    let behind = z2 + (kb + z3);
    assert(z1 + z2 + kb + z3 =~= z1 + behind);
    lemma_later_pieces(kb, z3, ca, 0);
    lemma_later_pieces(z2, z3, ca, 0);
    lemma_later_pieces(z2, kb + z3, ca, 0);
    lemma_later_cell(z2, ca, 0);
    lemma_later_cell(z3, ca, 0);
    if z2.len() == 0 {
        lemma_find_from(z2, utf8("<c "@), 0);
    }
    assert(goes_before(behind, ca));
    lemma_slot_between(z1, behind, ca);
}

/// A cell is longer than its start.
proof fn lemma_element_end_of_cell(k: Seq<u8>, coord: Seq<char>)
    requires
        is_element(k, "<c "@, "</c>"@, coord),
    ensures
        k.len() >= 2,
        k[0] == 60,
        k.last() == 62,
        tag_of(k, "<c "@, coord, 0) == Some(0int),
{
    lemma_sheet_ends();
    lemma_element_end(k, "<c "@, "</c>"@, coord);
}

/// A cell that stands between two pieces, in its place.
#[verifier::spinoff_prover]
#[verifier::rlimit(60)]
proof fn lemma_stands(p: Seq<u8>, k: Seq<u8>, q: Seq<u8>, coord: Seq<char>)
    requires
        tidy(p),
        q.len() >= 6,
        is_element(k, "<c "@, "</c>"@, coord),
        leading_column(utf8(coord)) is Some,
        tag_of(p, "<c "@, coord, 0) is None,
    ensures
        tag_of(p + k + q, "<c "@, coord, 0) == Some(p.len() as int),
        body_without(p + k + q, coord) == p + q,
        body_holds(p + k + q, coord) == (tag_of(q, "<c "@, coord, 0) is None),
        body_places(p + k + q, coord) == (tag_of(q, "<c "@, coord, 0) is None && later_cell(
            p,
            leading_column(utf8(coord))->0,
            0,
        ) == Some(None::<int>) && goes_before(q, leading_column(utf8(coord))->0)),
{
    let m = p + k + q;
    lemma_sheet_ends();
    lemma_element_found(p, k, q, "<c "@, "</c>"@, coord, 0);
    assert(replace(m, p.len() as int, (p.len() + k.len()) as int, Seq::empty()) =~= p + q);
    lemma_tag_of_pieces(p, q, "<c "@, coord, 0);
    lemma_slot_between(p, q, leading_column(utf8(coord))->0);
}

/// Putting a cell into a body and taking another one out, in either order.
#[verifier::spinoff_prover]
#[verifier::rlimit(60)]
proof fn lemma_put_and_take(x: Seq<u8>, a: Seq<char>, va: Seq<char>, b: Seq<char>)
    requires
        is_cell_name(a),
        is_body(x),
        tag_of(x, "<c "@, a, 0) is None,
        body_places(x, b),
        leading_column(utf8(a)) is Some,
        leading_column(utf8(b)) is Some,
        leading_column(utf8(a)) != leading_column(utf8(b)),
        body_slot(x, leading_column(utf8(a))->0) is Some,
    ensures
        ({
            let ca = leading_column(utf8(a))->0;
            let z = body_without(x, b);
            let xa = insert(x, body_slot(x, ca)->0, written_cell(a, va));
            &&& is_body(z)
            &&& tag_of(z, "<c "@, a, 0) is None
            &&& body_slot(z, ca) is Some
            &&& body_without(xa, b) == insert(z, body_slot(z, ca)->0, written_cell(a, va))
            &&& body_holds(xa, b)
        }),
{
    let ca = leading_column(utf8(a))->0;
    let ka = written_cell(a, va);
    let at = body_slot(x, ca)->0;
    let xa = insert(x, at, ka);
    lemma_sheet_ends();
    lemma_written_cell(a, va);
    lemma_other_element(ka, "<c "@, "</c>"@, a, b);
    lemma_cell_pieces(x, b);
    match tag_of(x, "<c "@, b, 0) {
        None => {
            lemma_slot_pieces(x, ca);
            let x1 = x.take(at);
            let x2 = x.skip(at);
            assert(xa =~= x1 + (ka + x2));
            lemma_tag_of_pieces(x1, x2, "<c "@, b, 0);
            lemma_tag_of_pieces(x1, ka + x2, "<c "@, b, 0);
            lemma_tag_of_pieces(ka, x2, "<c "@, b, 0);
        },
        Some(s) => {
            let e = element_stop(x, s, "</c>"@)->0;
            let p = x.take(s);
            let kb = x.subrange(s, e);
            let q = x.skip(e);
            lemma_still_absent(x, b, a);
            lemma_stands(p, kb, q, b);
            lemma_put_around(p, kb, q, a, ka, b);
        },
    }
}

/// A cell put in around another one, which is then taken out.
#[verifier::spinoff_prover]
#[verifier::rlimit(60)]
proof fn lemma_put_around(
    p: Seq<u8>,
    kb: Seq<u8>,
    q: Seq<u8>,
    a: Seq<char>,
    ka: Seq<u8>,
    b: Seq<char>,
)
    requires
        tidy(p),
        tidy(q),
        tidy(ka),
        q.len() >= 6,
        is_body(p + kb + q),
        is_body(p + q),
        is_element(kb, "<c "@, "</c>"@, b),
        leading_column(utf8(a)) is Some,
        leading_column(utf8(b)) is Some,
        leading_column(utf8(a)) != leading_column(utf8(b)),
        tag_of(p, "<c "@, b, 0) is None,
        tag_of(q, "<c "@, b, 0) is None,
        tag_of(ka, "<c "@, b, 0) is None,
        later_cell(p, leading_column(utf8(b))->0, 0) == Some(None::<int>),
        goes_before(q, leading_column(utf8(b))->0),
        body_slot(p + kb + q, leading_column(utf8(a))->0) is Some,
    ensures
        ({
            let ca = leading_column(utf8(a))->0;
            let xa = insert(p + kb + q, body_slot(p + kb + q, ca)->0, ka);
            &&& body_slot(p + q, ca) is Some
            &&& body_without(xa, b) == insert(p + q, body_slot(p + q, ca)->0, ka)
            &&& body_holds(xa, b)
        }),
{
    let ca = leading_column(utf8(a))->0;
    let cb = leading_column(utf8(b))->0;
    let x = p + kb + q;
    let at = body_slot(x, ca)->0;
    let xa = insert(x, at, ka);
    lemma_opens();
    lemma_element_end_of_cell(kb, b);
    lemma_later_of_cell(kb, b, ca);
    assert(x =~= p + (kb + q));
    lemma_later_pieces(p, kb + q, ca, 0);
    lemma_later_pieces(kb, q, ca, 0);
    lemma_later_pieces(p, q, ca, 0);
    lemma_later_cell(p, ca, 0);
    lemma_later_cell(q, ca, 0);
    lemma_sheet_ends();
    if later_cell(p, ca, 0) is Some && later_cell(p, ca, 0)->0 is Some {
        let p1 = p.take(at);
        let p2 = p.skip(at);
        assert(p =~= p1 + p2);
        lemma_byte_at(p, utf8("<c "@), at, 0);
        lemma_tidy_split(p1, p2);
        lemma_tag_of_pieces(p1, p2, "<c "@, b, 0);
        assert(xa =~= p1 + ka + p2 + kb + q);
        lemma_taken(p1, ka, p2, kb, q, xa, b);
        assert(insert(p + q, at, ka) =~= p1 + ka + p2 + q);
    } else if cb > ca {
        lemma_goes_before(p, q, ca, cb);
        lemma_slot_between(p, q, ca);
        let none = Seq::<u8>::empty();
        lemma_find_from(none, utf8("<c "@), 0);
        assert(xa =~= p + ka + none + kb + q);
        lemma_taken(p, ka, none, kb, q, xa, b);
        assert(insert(p + q, p.len() as int, ka) =~= p + ka + none + q);
    } else {
        lemma_put_behind(p, kb, q, a, ka, b);
    }
}

/// A cell put in behind another one, which is then taken out.
#[verifier::spinoff_prover]
#[verifier::rlimit(60)]
proof fn lemma_put_behind(
    p: Seq<u8>,
    kb: Seq<u8>,
    q: Seq<u8>,
    a: Seq<char>,
    ka: Seq<u8>,
    b: Seq<char>,
)
    requires
        tidy(p),
        tidy(q),
        tidy(ka),
        q.len() >= 6,
        is_body(p + kb + q),
        is_element(kb, "<c "@, "</c>"@, b),
        leading_column(utf8(a)) is Some,
        tag_of(p, "<c "@, b, 0) is None,
        tag_of(q, "<c "@, b, 0) is None,
        tag_of(ka, "<c "@, b, 0) is None,
        later_cell(p, leading_column(utf8(a))->0, 0) == Some(None::<int>),
        later_cell(kb, leading_column(utf8(a))->0, 0) == Some(None::<int>),
        body_slot(p + kb + q, leading_column(utf8(a))->0) is Some,
    ensures
        ({
            let ca = leading_column(utf8(a))->0;
            let xa = insert(p + kb + q, body_slot(p + kb + q, ca)->0, ka);
            &&& body_slot(p + q, ca) is Some
            &&& body_without(xa, b) == insert(p + q, body_slot(p + q, ca)->0, ka)
            &&& body_holds(xa, b)
        }),
{
    let ca = leading_column(utf8(a))->0;
    let x = p + kb + q;
    let at = body_slot(x, ca)->0;
    let xa = insert(x, at, ka);
    lemma_opens();
    lemma_sheet_ends();
    lemma_element_end_of_cell(kb, b);
    assert(x =~= p + (kb + q));
    lemma_later_pieces(p, kb + q, ca, 0);
    lemma_later_pieces(kb, q, ca, 0);
    lemma_later_pieces(p, q, ca, 0);
    lemma_later_cell(q, ca, 0);
    let n = at - p.len() - kb.len();
    assert(body_slot(q, ca) == Some(n));
    let q1 = q.take(n);
    let q2 = q.skip(n);
    lemma_slot_byte(x, ca);
    assert(q2[0] == x[at]);
    assert(q =~= q1 + q2);
    lemma_tidy_split(q1, q2);
    lemma_behind_taken(p, kb, q1, ka, q2, b);
    assert(xa =~= p + kb + (q1 + ka + q2));
    assert(insert(p + q, p.len() + n, ka) =~= p + (q1 + ka + q2));
}

/// A cell in front of one that was put in is found and taken out.
#[verifier::spinoff_prover]
#[verifier::rlimit(60)]
proof fn lemma_behind_taken(
    p: Seq<u8>,
    kb: Seq<u8>,
    q1: Seq<u8>,
    ka: Seq<u8>,
    q2: Seq<u8>,
    b: Seq<char>,
)
    requires
        tidy(p),
        tidy(q1),
        tidy(ka),
        is_element(kb, "<c "@, "</c>"@, b),
        tag_of(p, "<c "@, b, 0) is None,
        tag_of(q1 + q2, "<c "@, b, 0) is None,
        tag_of(ka, "<c "@, b, 0) is None,
    ensures
        body_without(p + kb + (q1 + ka + q2), b) == p + (q1 + ka + q2),
        body_holds(p + kb + (q1 + ka + q2), b),
{
    let rest = q1 + ka + q2;
    let xa = p + kb + rest;
    lemma_sheet_ends();
    lemma_tag_of_pieces(q1, q2, "<c "@, b, 0);
    assert(rest =~= q1 + (ka + q2));
    lemma_tag_of_pieces(q1, ka + q2, "<c "@, b, 0);
    lemma_tag_of_pieces(ka, q2, "<c "@, b, 0);
    lemma_element_found(p, kb, rest, "<c "@, "</c>"@, b, 0);
    assert(replace(xa, p.len() as int, (p.len() + kb.len()) as int, Seq::empty()) =~= p + rest);
    lemma_tag_of_pieces(p, rest, "<c "@, b, 0);
}

/// A cell behind one that was put in is found and taken out.
proof fn lemma_taken(
    p1: Seq<u8>,
    ka: Seq<u8>,
    p2: Seq<u8>,
    kb: Seq<u8>,
    q: Seq<u8>,
    xa: Seq<u8>,
    b: Seq<char>,
)
    requires
        tidy(p1),
        tidy(ka),
        tidy(p2),
        is_element(kb, "<c "@, "</c>"@, b),
        tag_of(p1, "<c "@, b, 0) is None,
        tag_of(ka, "<c "@, b, 0) is None,
        tag_of(p2, "<c "@, b, 0) is None,
        tag_of(q, "<c "@, b, 0) is None,
        xa == p1 + ka + p2 + kb + q,
    ensures
        body_without(xa, b) == p1 + ka + p2 + q,
        body_holds(xa, b),
{
    let front = p1 + ka + p2;
    lemma_sheet_ends();
    lemma_tidy_join(p1, ka);
    lemma_tidy_join(p1 + ka, p2);
    lemma_tag_of_pieces(p1, ka, "<c "@, b, 0);
    lemma_tag_of_pieces(p1 + ka, p2, "<c "@, b, 0);
    lemma_element_found(front, kb, q, "<c "@, "</c>"@, b, 0);
    assert(replace(xa, front.len() as int, (front.len() + kb.len()) as int, Seq::empty()) =~= front
        + q);
    lemma_tag_of_pieces(front, q, "<c "@, b, 0);
}

/// Two cells of a body, each in its place, are taken out in either order, and each leaves the other in
/// its place.
#[verifier::spinoff_prover]
#[verifier::rlimit(60)]
proof fn lemma_taken_apart(m: Seq<u8>, f: Seq<char>, g: Seq<char>)
    requires
        is_body(m),
        body_places(m, f),
        body_places(m, g),
        leading_column(utf8(f)) != leading_column(utf8(g)),
        tag_of(m, "<c "@, f, 0) is Some,
        tag_of(m, "<c "@, g, 0) is Some,
        tag_of(m, "<c "@, f, 0)->0 < tag_of(m, "<c "@, g, 0)->0,
    ensures
        body_places(body_without(m, f), g),
        body_places(body_without(m, g), f),
        body_without(body_without(m, f), g) == body_without(body_without(m, g), f),
{
    let open = utf8("<c "@);
    let sf = tag_of(m, "<c "@, f, 0)->0;
    let sg = tag_of(m, "<c "@, g, 0)->0;
    let ef = element_stop(m, sf, "</c>"@)->0;
    let eg = element_stop(m, sg, "</c>"@)->0;
    let cf = leading_column(utf8(f))->0;
    let cg = leading_column(utf8(g))->0;
    lemma_sheet_ends();
    lemma_opens();
    lemma_cell_pieces(m, f);
    lemma_cell_pieces(m, g);
    let p = m.take(sf);
    let kf = m.subrange(sf, ef);
    let kg = m.subrange(sg, eg);
    let s = m.skip(eg);
    lemma_tag_of(m, "<c "@, g, 0);
    assert(ef <= sg) by {
        if sg < ef {
            assert(m =~= p + (kf + m.skip(ef)));
            lemma_occurs_back(p, kf + m.skip(ef), open, sg - sf);
            lemma_occurs_front(kf, m.skip(ef), open, sg - sf);
            lemma_find_from(kf, open, 1);
        }
    }
    let q = m.subrange(ef, sg);
    let qs = m.skip(ef);
    let pq = m.take(sg);
    assert(pq =~= p + kf + q);
    assert(qs =~= q + (kg + s));
    lemma_element_end_of_cell(kf, f);
    lemma_tidy_join(p, kf);
    assert((p + kf).last() == 62);
    lemma_tidy_split(p + kf, q);
    lemma_stands(p, kf, qs, f);
    lemma_stands(pq, kg, s, g);
    assert(m =~= (p + kf + q) + kg + s);
    lemma_apart(p, kf, q, kg, s, f, g);
}

/// Two cells between three pieces, each in its place, taken out in either order.
#[verifier::spinoff_prover]
#[verifier::rlimit(60)]
proof fn lemma_apart(
    p: Seq<u8>,
    kf: Seq<u8>,
    q: Seq<u8>,
    kg: Seq<u8>,
    s: Seq<u8>,
    f: Seq<char>,
    g: Seq<char>,
)
    requires
        tidy(p),
        tidy(q),
        tidy(s),
        s.len() >= 6,
        is_body((p + kf + q) + kg + s),
        is_body((p + kf + q) + s),
        is_element(kf, "<c "@, "</c>"@, f),
        is_element(kg, "<c "@, "</c>"@, g),
        leading_column(utf8(f)) is Some,
        leading_column(utf8(g)) is Some,
        leading_column(utf8(f)) != leading_column(utf8(g)),
        tag_of(p, "<c "@, f, 0) is None,
        tag_of(q + (kg + s), "<c "@, f, 0) is None,
        tag_of(p + kf + q, "<c "@, g, 0) is None,
        tag_of(s, "<c "@, g, 0) is None,
        later_cell(p, leading_column(utf8(f))->0, 0) == Some(None::<int>),
        goes_before(q + (kg + s), leading_column(utf8(f))->0),
        later_cell(p + kf + q, leading_column(utf8(g))->0, 0) == Some(None::<int>),
        goes_before(s, leading_column(utf8(g))->0),
    ensures
        ({
            let m = (p + kf + q) + kg + s;
            &&& body_places(body_without(m, f), g)
            &&& body_places(body_without(m, g), f)
            &&& body_without(body_without(m, f), g) == body_without(body_without(m, g), f)
        }),
{
    let m = (p + kf + q) + kg + s;
    let cf = leading_column(utf8(f))->0;
    let cg = leading_column(utf8(g))->0;
    lemma_sheet_ends();
    lemma_opens();
    lemma_element_end_of_cell(kf, f);
    lemma_element_end_of_cell(kg, g);
    lemma_tidy_join(p, kf);
    lemma_tidy_join(p + kf, q);
    lemma_tidy_join(p, q);
    lemma_tag_of_pieces(p + kf, q, "<c "@, g, 0);
    lemma_tag_of_pieces(p, kf, "<c "@, g, 0);
    lemma_tag_of_pieces(p, q, "<c "@, g, 0);
    lemma_tag_of_pieces(q, kg + s, "<c "@, f, 0);
    lemma_tag_of_pieces(kg, s, "<c "@, f, 0);
    lemma_tag_of_pieces(q, s, "<c "@, f, 0);
    lemma_none_later(p + kf, q, cg);
    lemma_none_later(p, kf, cg);
    lemma_none_later(p, q, cg);
    lemma_later_of_cell(kg, g, cf);
    lemma_later_pieces(q, kg + s, cf, 0);
    lemma_later_pieces(kg, s, cf, 0);
    lemma_later_pieces(q, s, cf, 0);
    lemma_later_cell(q, cf, 0);
    lemma_later_cell(kg + s, cf, 0);
    lemma_later_cell(s, cf, 0);
    if q.len() == 0 {
        lemma_find_from(q, utf8("<c "@), 0);
        if cg > cf {
            lemma_goes_before(p + kf + q, s, cf, cg);
        }
    }
    assert(goes_before(q + s, cf));
    lemma_stands(p, kf, q + (kg + s), f);
    assert(m =~= p + kf + (q + (kg + s)));
    lemma_stands(p + kf + q, kg, s, g);
    assert(p + (q + (kg + s)) =~= (p + q) + kg + s);
    lemma_stands(p + q, kg, s, g);
    assert((p + kf + q) + s =~= p + kf + (q + s));
    lemma_stands(p, kf, q + s, f);
    assert((p + q) + s =~= p + (q + s));
}

/// Taking one cell out of a body leaves another one in its place.
proof fn lemma_take_both(m: Seq<u8>, a: Seq<char>, b: Seq<char>)
    requires
        is_body(m),
        body_places(m, a),
        body_places(m, b),
        leading_column(utf8(a)) != leading_column(utf8(b)),
    ensures
        body_places(body_without(m, a), b),
        body_without(body_without(m, a), b) == body_without(body_without(m, b), a),
{
    lemma_sheet_ends();
    lemma_cell_pieces(m, a);
    lemma_cell_pieces(m, b);
    lemma_tag_of(m, "<c "@, a, 0);
    lemma_tag_of(m, "<c "@, b, 0);
    match (tag_of(m, "<c "@, a, 0), tag_of(m, "<c "@, b, 0)) {
        (Some(sa), Some(sb)) => {
            if sa < sb {
                lemma_taken_apart(m, a, b);
            } else if sb < sa {
                lemma_taken_apart(m, b, a);
            }
        },
        (Some(sa), None) => {
            lemma_still_absent(m, a, b);
        },
        (None, Some(sb)) => {
            lemma_still_absent(m, b, a);
        },
        (None, None) => {},
    }
}

/// A cell that a body does not have is not there when another one is taken out.
proof fn lemma_still_absent(m: Seq<u8>, a: Seq<char>, b: Seq<char>)
    requires
        is_body(m),
        body_holds(m, a),
        tag_of(m, "<c "@, a, 0) is Some,
        tag_of(m, "<c "@, b, 0) is None,
    ensures
        tag_of(body_without(m, a), "<c "@, b, 0) is None,
{
    lemma_sheet_ends();
    lemma_cell_pieces(m, a);
    let s = tag_of(m, "<c "@, a, 0)->0;
    let e = element_stop(m, s, "</c>"@)->0;
    let p = m.take(s);
    let k = m.subrange(s, e);
    let q = m.skip(e);
    assert(m =~= p + (k + q));
    lemma_tag_of_pieces(p, k + q, "<c "@, b, 0);
    lemma_tag_of_pieces(k, q, "<c "@, b, 0);
    lemma_tag_of_pieces(p, q, "<c "@, b, 0);
}

/// Two cells of different columns of a body, each there once at most and in its place, can be set in
/// either order.
#[verifier::spinoff_prover]
#[verifier::rlimit(60)]
pub proof fn lemma_cells_commute(
    m: Seq<u8>,
    a: Seq<char>,
    va: Seq<char>,
    b: Seq<char>,
    vb: Seq<char>,
)
    requires
        is_cell_name(a),
        is_cell_name(b),
        is_body(m),
        body_places(m, a),
        body_places(m, b),
        leading_column(utf8(a)) != leading_column(utf8(b)),
        body_with(m, a, va) is Some,
        body_with(m, b, vb) is Some,
    ensures
        body_with(body_with(m, a, va)->0, b, vb) == body_with(body_with(m, b, vb)->0, a, va),
        body_with(body_with(m, a, va)->0, b, vb) is Some,
        body_holds(body_with(m, a, va)->0, b),
        body_holds(body_with(m, b, vb)->0, a),
{
    let x = body_without(m, a);
    let y = body_without(m, b);
    lemma_cell_pieces(m, a);
    lemma_cell_pieces(m, b);
    lemma_take_both(m, a, b);
    lemma_take_both(m, b, a);
    lemma_put_and_take(x, a, va, b);
    lemma_put_and_take(y, b, vb, a);
    let z = body_without(x, b);
    if leading_column(utf8(a))->0 < leading_column(utf8(b))->0 {
        lemma_put_both(z, a, va, b, vb);
    } else {
        lemma_put_both(z, b, vb, a, va);
    }
}

} // verus!
