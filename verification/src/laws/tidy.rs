//! Documents in which every tag ends, and searches in such documents piece by piece.

use vstd::prelude::*;
use crate::bytes::{
    find_from, lemma_find_from, lemma_find_from_is, lemma_rfind, lemma_rfind_is, occurs_at, rfind,
};
use crate::laws::pieces::{lemma_byte_at, tag_like};
use crate::tags::{
    element_stop, is_closed, lemma_bracket, lemma_tag_of, lemma_tag_stop, refers_to, tag_at, tag_of,
    tag_stop,
};
use crate::text::utf8;

verus! {

/// The tag that starts at `p` ends before another one starts.
pub open spec fn ends_from(x: Seq<u8>, p: int) -> bool {
    find_from(x, utf8(">"@), p) matches Some(q) && forall|k: int| p < k < q ==> #[trigger] x[k] != 60
}

/// Every tag of a document ends before another one starts.
pub open spec fn tidy(x: Seq<u8>) -> bool {
    forall|p: int| 0 <= p < x.len() && #[trigger] x[p] == 60 ==> ends_from(x, p)
}

/// The first `>` at or after `p`.
pub proof fn lemma_first_end(x: Seq<u8>, p: int)
    requires
        0 <= p,
    ensures
        match find_from(x, utf8(">"@), p) {
            Some(q) => p <= q < x.len() && x[q] == 62 && forall|k: int|
                p <= k < q ==> #[trigger] x[k] != 62,
            None => forall|k: int| p <= k < x.len() ==> #[trigger] x[k] != 62,
        },
{
    let bracket = utf8(">"@);
    lemma_bracket();
    lemma_find_from(x, bracket, p);
    if let Some(q) = find_from(x, bracket, p) {
        lemma_byte_at(x, bracket, q, 0);
        assert forall|k: int| p <= k < q implies #[trigger] x[k] != 62 by {
            if x[k] == 62 {
                assert(x.subrange(k, k + 1) =~= bracket);
                assert(occurs_at(x, bracket, k));
            }
        }
    } else {
        assert forall|k: int| p <= k < x.len() implies #[trigger] x[k] != 62 by {
            if x[k] == 62 {
                assert(x.subrange(k, k + 1) =~= bracket);
                assert(occurs_at(x, bracket, k));
            }
        }
    }
}

/// A `>` with none in front of it is the first one.
pub proof fn lemma_first_end_is(x: Seq<u8>, p: int, q: int)
    requires
        0 <= p <= q < x.len(),
        x[q] == 62,
        forall|k: int| p <= k < q ==> #[trigger] x[k] != 62,
    ensures
        find_from(x, utf8(">"@), p) == Some(q),
        tag_stop(x, p) == q + 1,
        tag_at(x, p) == x.subrange(p, q + 1),
{
    lemma_bracket();
    lemma_first_end(x, p);
}

/// The tag at `p` of a tidy document.
pub proof fn lemma_tidy_tag(x: Seq<u8>, p: int)
    requires
        tidy(x),
        0 <= p < x.len(),
        x[p] == 60,
    ensures
        p + 1 < tag_stop(x, p) <= x.len(),
        x[tag_stop(x, p) - 1] == 62,
        find_from(x, utf8(">"@), p) == Some(tag_stop(x, p) - 1),
        forall|k: int| p <= k < tag_stop(x, p) - 1 ==> #[trigger] x[k] != 62,
        forall|k: int| p < k < tag_stop(x, p) ==> #[trigger] x[k] != 60,
{
    lemma_bracket();
    lemma_first_end(x, p);
    assert(ends_from(x, p));
}

/// A document of two tidy pieces is tidy.
pub proof fn lemma_tidy_join(a: Seq<u8>, b: Seq<u8>)
    requires
        tidy(a),
        tidy(b),
    ensures
        tidy(a + b),
{
    let x = a + b;
    assert forall|p: int| 0 <= p < x.len() && #[trigger] x[p] == 60 implies ends_from(x, p) by {
        if p < a.len() {
            assert(a[p] == 60);
            lemma_tag_in_front(a, b, p);
            lemma_tidy_tag(a, p);
            lemma_bracket();
            lemma_first_end(x, p);
        } else {
            let r = p - a.len();
            assert(b[r] == 60);
            lemma_tidy_tag(b, r);
            let q = tag_stop(b, r) - 1;
            assert forall|k: int| p <= k < a.len() + q implies #[trigger] x[k] != 62 by {
                assert(x[k] == b[k - a.len()]);
            }
            assert(x[a.len() + q] == b[q]);
            lemma_first_end_is(x, p, a.len() + q);
            assert forall|k: int| p < k < a.len() + q implies #[trigger] x[k] != 60 by {
                assert(x[k] == b[k - a.len()]);
            }
        }
    }
}

/// A tag of the first of two pieces.
pub proof fn lemma_tag_in_front(a: Seq<u8>, b: Seq<u8>, p: int)
    requires
        tidy(a),
        0 <= p < a.len(),
        a[p] == 60,
    ensures
        tag_stop(a + b, p) == tag_stop(a, p),
        tag_at(a + b, p) == tag_at(a, p),
        find_from(a + b, utf8(">"@), p) == find_from(a, utf8(">"@), p),
        p < tag_stop(a, p) <= a.len(),
{
    let x = a + b;
    lemma_tidy_tag(a, p);
    let q = tag_stop(a, p) - 1;
    assert forall|k: int| p <= k < q implies #[trigger] x[k] != 62 by {
        assert(x[k] == a[k]);
    }
    assert(x[q] == a[q]);
    lemma_first_end_is(x, p, q);
    assert(x.subrange(p, q + 1) =~= a.subrange(p, q + 1));
}

/// A tag of the second of two pieces.
pub proof fn lemma_tag_behind(a: Seq<u8>, b: Seq<u8>, p: int)
    requires
        0 <= p <= b.len(),
    ensures
        tag_stop(a + b, a.len() + p) == a.len() + tag_stop(b, p),
        tag_at(a + b, a.len() + p) == tag_at(b, p),
{
    let x = a + b;
    lemma_bracket();
    lemma_first_end(b, p);
    lemma_first_end(x, a.len() + p);
    lemma_tag_stop(b, p);
    match find_from(b, utf8(">"@), p) {
        Some(q) => {
            assert(x[a.len() + q] == b[q]);
            assert forall|k: int| a.len() + p <= k < a.len() + q implies #[trigger] x[k] != 62 by {
                assert(x[k] == b[k - a.len()]);
            }
            lemma_first_end_is(x, a.len() + p, a.len() + q);
        },
        None => {
            if let Some(q) = find_from(x, utf8(">"@), a.len() + p) {
                assert(x[q] == b[q - a.len()]);
            }
        },
    }
    assert(x.subrange(a.len() + p, a.len() + tag_stop(b, p)) =~= b.subrange(p, tag_stop(b, p)));
}

/// What stands in front of a tag of a tidy document is tidy, and so is the rest.
pub proof fn lemma_tidy_split(a: Seq<u8>, b: Seq<u8>)
    requires
        tidy(a + b),
        (b.len() > 0 && b[0] == 60) || (a.len() > 0 && a.last() == 62) || a.len() == 0 || b.len()
            == 0,
    ensures
        tidy(a),
        tidy(b),
{
    let x = a + b;
    assert forall|p: int| 0 <= p < a.len() && #[trigger] a[p] == 60 implies ends_from(a, p) by {
        assert(x[p] == 60);
        lemma_tidy_tag(x, p);
        let q = tag_stop(x, p) - 1;
        if q >= a.len() {
            if a.last() == 62 {
                assert(x[a.len() - 1] == 62);
            } else {
                assert(x[a.len() as int] == 60);
            }
        }
        assert(a[q] == x[q]);
        assert forall|k: int| p <= k < q implies #[trigger] a[k] != 62 by {
            assert(x[k] == a[k]);
        }
        lemma_first_end_is(a, p, q);
        assert forall|k: int| p < k < q implies #[trigger] a[k] != 60 by {
            assert(x[k] == a[k]);
        }
    }
    assert forall|p: int| 0 <= p < b.len() && #[trigger] b[p] == 60 implies ends_from(b, p) by {
        let r = a.len() + p;
        assert(x[r] == 60);
        lemma_tidy_tag(x, r);
        let q = tag_stop(x, r) - 1 - a.len();
        assert(b[q] == x[a.len() + q]);
        assert forall|k: int| p <= k < q implies #[trigger] b[k] != 62 by {
            assert(x[a.len() + k] == b[k]);
        }
        lemma_first_end_is(b, p, q);
        assert forall|k: int| p < k < q implies #[trigger] b[k] != 60 by {
            assert(x[a.len() + k] == b[k]);
        }
    }
}

/// A place in the first of two pieces.
pub proof fn lemma_occurs_front(a: Seq<u8>, b: Seq<u8>, needle: Seq<u8>, p: int)
    requires
        tidy(a),
        tag_like(needle),
        p < a.len(),
    ensures
        occurs_at(a + b, needle, p) == occurs_at(a, needle, p),
{
    let x = a + b;
    if 0 <= p && p + needle.len() <= a.len() {
        assert(x.subrange(p, p + needle.len()) =~= a.subrange(p, p + needle.len()));
    } else if occurs_at(x, needle, p) {
        lemma_byte_at(x, needle, p, 0);
        assert(a[p] == 60);
        lemma_tidy_tag(a, p);
        let q = tag_stop(a, p) - 1;
        lemma_byte_at(x, needle, p, q - p);
        assert(x[q] == a[q]);
    }
}

/// A place in the second of two pieces.
pub proof fn lemma_occurs_back(a: Seq<u8>, b: Seq<u8>, needle: Seq<u8>, p: int)
    requires
        0 <= p,
    ensures
        occurs_at(a + b, needle, a.len() + p) == occurs_at(b, needle, p),
{
    let x = a + b;
    if p + needle.len() <= b.len() {
        assert(x.subrange(a.len() + p, a.len() + p + needle.len()) =~= b.subrange(
            p,
            p + needle.len(),
        ));
    }
}

/// A place moved by `n`.
pub open spec fn moved(p: Option<int>, n: int) -> Option<int> {
    match p {
        Some(at) => Some(at + n),
        None => None,
    }
}

/// A search from a place in the second of two pieces on.
pub proof fn lemma_find_back(a: Seq<u8>, b: Seq<u8>, needle: Seq<u8>, i: int)
    requires
        0 <= i,
    ensures
        find_from(a + b, needle, a.len() + i) == moved(find_from(b, needle, i), a.len() as int),
{
    let x = a + b;
    lemma_find_from(b, needle, i);
    lemma_find_from(x, needle, a.len() + i);
    match find_from(b, needle, i) {
        Some(p) => {
            lemma_occurs_back(a, b, needle, p);
            assert forall|q: int| a.len() + i <= q < a.len() + p implies !#[trigger] occurs_at(
                x,
                needle,
                q,
            ) by {
                lemma_occurs_back(a, b, needle, q - a.len());
                assert(!occurs_at(b, needle, q - a.len()));
            }
            lemma_find_from_is(x, needle, a.len() + i, a.len() + p);
        },
        None => {
            if let Some(q) = find_from(x, needle, a.len() + i) {
                lemma_occurs_back(a, b, needle, q - a.len());
                assert(occurs_at(b, needle, q - a.len()));
            }
        },
    }
}

/// A search through two pieces: the first one, then the second one.
pub proof fn lemma_find_pieces(a: Seq<u8>, b: Seq<u8>, needle: Seq<u8>, i: int)
    requires
        tidy(a),
        tag_like(needle),
        0 <= i <= a.len(),
    ensures
        find_from(a + b, needle, i) == (match find_from(a, needle, i) {
            Some(p) => Some(p),
            None => moved(find_from(b, needle, 0), a.len() as int),
        }),
{
    let x = a + b;
    lemma_find_from(a, needle, i);
    lemma_find_from(b, needle, 0);
    lemma_find_from(x, needle, i);
    match find_from(a, needle, i) {
        Some(p) => {
            lemma_occurs_front(a, b, needle, p);
            assert forall|q: int| i <= q < p implies !#[trigger] occurs_at(x, needle, q) by {
                lemma_occurs_front(a, b, needle, q);
                assert(!occurs_at(a, needle, q));
            }
            lemma_find_from_is(x, needle, i, p);
        },
        None => {
            assert forall|q: int| i <= q < a.len() implies !#[trigger] occurs_at(x, needle, q) by {
                lemma_occurs_front(a, b, needle, q);
                assert(!occurs_at(a, needle, q));
            }
            lemma_find_back(a, b, needle, 0);
            lemma_find_from(x, needle, a.len() as int);
            if let Some(p) = find_from(x, needle, a.len() as int) {
                lemma_find_from_is(x, needle, i, p);
            } else if let Some(p) = find_from(x, needle, i) {
                assert(occurs_at(x, needle, p));
            }
        },
    }
}

/// The last place in two pieces: in the second one, or else in the first one.
pub proof fn lemma_rfind_pieces(a: Seq<u8>, b: Seq<u8>, needle: Seq<u8>)
    requires
        tidy(a),
        tag_like(needle),
    ensures
        rfind(a + b, needle) == (match rfind(b, needle) {
            Some(p) => Some(a.len() + p),
            None => rfind(a, needle),
        }),
{
    let x = a + b;
    lemma_rfind(a, needle);
    lemma_rfind(b, needle);
    lemma_rfind(x, needle);
    match rfind(b, needle) {
        Some(p) => {
            lemma_occurs_back(a, b, needle, p);
            assert forall|q: int| a.len() + p < q implies !#[trigger] occurs_at(x, needle, q) by {
                lemma_occurs_back(a, b, needle, q - a.len());
                assert(!occurs_at(b, needle, q - a.len()));
            }
            lemma_rfind_is(x, needle, a.len() + p);
        },
        None => {
            assert forall|q: int| #[trigger] occurs_at(x, needle, q) implies occurs_at(a, needle, q) by {
                if q < a.len() {
                    lemma_occurs_front(a, b, needle, q);
                } else {
                    lemma_occurs_back(a, b, needle, q - a.len());
                    assert(occurs_at(b, needle, q - a.len()));
                }
            }
            if let Some(p) = rfind(a, needle) {
                lemma_occurs_front(a, b, needle, p);
                lemma_rfind_is(x, needle, p);
            }
        },
    }
}

// ---- tags with a reference ----------------------------------------------------------------

/// The tag of a value, searched from a place in the second of two pieces on.
pub proof fn lemma_tag_of_back(
    a: Seq<u8>,
    b: Seq<u8>,
    open: Seq<char>,
    value: Seq<char>,
    i: int,
)
    requires
        0 <= i,
    ensures
        tag_of(a + b, open, value, a.len() + i) == moved(tag_of(b, open, value, i), a.len() as int),
    decreases b.len() + 1 - i,
{
    lemma_find_back(a, b, utf8(open), i);
    lemma_find_from(b, utf8(open), i);
    if let Some(p) = find_from(b, utf8(open), i) {
        lemma_tag_behind(a, b, p);
        if !refers_to(tag_at(b, p), value) {
            lemma_tag_of_back(a, b, open, value, p + 1);
        }
    }
}

/// The tag of a value in two pieces: in the first one, or else in the second one.
pub proof fn lemma_tag_of_pieces(
    a: Seq<u8>,
    b: Seq<u8>,
    open: Seq<char>,
    value: Seq<char>,
    i: int,
)
    requires
        tidy(a),
        tag_like(utf8(open)),
        0 <= i <= a.len(),
    ensures
        tag_of(a + b, open, value, i) == (match tag_of(a, open, value, i) {
            Some(p) => Some(p),
            None => moved(tag_of(b, open, value, 0), a.len() as int),
        }),
    decreases a.len() - i,
{
    lemma_find_pieces(a, b, utf8(open), i);
    lemma_find_from(a, utf8(open), i);
    match find_from(a, utf8(open), i) {
        Some(p) => {
            lemma_byte_at(a, utf8(open), p, 0);
            lemma_tag_in_front(a, b, p);
            if !refers_to(tag_at(a, p), value) {
                lemma_tag_of_pieces(a, b, open, value, p + 1);
            }
        },
        None => {
            lemma_tag_of_back(a, b, open, value, 0);
            lemma_find_back(a, b, utf8(open), 0);
        },
    }
}

// ---- elements -----------------------------------------------------------------------------

/// An element that starts with `open`, refers to `value` and ends with its tag or with `close`, and
/// within which no other `open` stands.
pub open spec fn is_element(k: Seq<u8>, open: Seq<char>, close: Seq<char>, value: Seq<char>) -> bool {
    &&& tidy(k)
    &&& occurs_at(k, utf8(open), 0)
    &&& refers_to(tag_at(k, 0), value)
    &&& element_stop(k, 0, close) == Some(k.len() as int)
    &&& find_from(k, utf8(open), 1) is None
}

/// What an element can start and end with.
pub open spec fn are_ends(open: Seq<char>, close: Seq<char>) -> bool {
    &&& tag_like(utf8(open))
    &&& tag_like(utf8(close))
    &&& utf8(close).last() == 62
}

/// An element ends with `>`.
pub proof fn lemma_element_end(k: Seq<u8>, open: Seq<char>, close: Seq<char>, value: Seq<char>)
    requires
        are_ends(open, close),
        is_element(k, open, close, value),
    ensures
        k.len() >= 2,
        k[0] == 60,
        k.last() == 62,
        tag_of(k, open, value, 0) == Some(0int),
        0 < tag_stop(k, 0) <= k.len(),
        is_closed(tag_at(k, 0)) ==> tag_at(k, 0) == k,
{
    lemma_byte_at(k, utf8(open), 0, 0);
    lemma_tidy_tag(k, 0);
    let stop = tag_stop(k, 0);
    lemma_find_from(k, utf8(open), 0);
    lemma_find_from(k, utf8(close), stop);
    if is_closed(tag_at(k, 0)) {
        assert(k.subrange(0, k.len() as int) =~= k);
    } else {
        let end = find_from(k, utf8(close), stop)->0;
        lemma_byte_at(k, utf8(close), end, utf8(close).len() - 1);
    }
}

/// Where an element ends, in a document of pieces.
pub proof fn lemma_stop_pieces(a: Seq<u8>, b: Seq<u8>, p: int, close: Seq<char>)
    requires
        tidy(a),
        tag_like(utf8(close)),
        0 <= p < a.len(),
        a[p] == 60,
    ensures
        element_stop(a, p, close) is Some ==> element_stop(a + b, p, close) == element_stop(
            a,
            p,
            close,
        ),
{
    lemma_tag_in_front(a, b, p);
    lemma_find_pieces(a, b, utf8(close), tag_stop(a, p));
}

/// Where an element of the second of two pieces ends.
pub proof fn lemma_stop_back(a: Seq<u8>, b: Seq<u8>, p: int, close: Seq<char>)
    requires
        0 <= p <= b.len(),
    ensures
        element_stop(a + b, a.len() + p, close) == moved(element_stop(b, p, close), a.len() as int),
{
    lemma_tag_behind(a, b, p);
    lemma_tag_stop(b, p);
    lemma_find_back(a, b, utf8(close), tag_stop(b, p));
}

/// An element that stands behind a piece without one for the same value is found there.
pub proof fn lemma_element_found(
    a: Seq<u8>,
    k: Seq<u8>,
    b: Seq<u8>,
    open: Seq<char>,
    close: Seq<char>,
    value: Seq<char>,
    i: int,
)
    requires
        are_ends(open, close),
        tidy(a),
        is_element(k, open, close, value),
        0 <= i <= a.len(),
        tag_of(a, open, value, i) is None,
    ensures
        tag_of(a + k + b, open, value, i) == Some(a.len() as int),
        element_stop(a + k + b, a.len() as int, close) == Some((a.len() + k.len()) as int),
        (a + k + b).subrange(a.len() as int, (a.len() + k.len()) as int) == k,
{
    let x = a + (k + b);
    assert(a + k + b =~= x);
    lemma_element_end(k, open, close, value);
    lemma_tag_of_pieces(a, k + b, open, value, i);
    lemma_tag_of_pieces(k, b, open, value, 0);
    lemma_stop_pieces(k, b, 0, close);
    lemma_stop_back(a, k + b, 0, close);
    assert(x.subrange(a.len() as int, (a.len() + k.len()) as int) =~= k);
}

/// The pieces around an element that was found.
#[verifier::spinoff_prover]
#[verifier::rlimit(60)]
pub proof fn lemma_element_pieces(
    x: Seq<u8>,
    open: Seq<char>,
    close: Seq<char>,
    value: Seq<char>,
    i: int,
    s: int,
    e: int,
)
    requires
        are_ends(open, close),
        tidy(x),
        0 <= i <= x.len(),
        tag_of(x, open, value, i) == Some(s),
        element_stop(x, s, close) == Some(e),
    ensures
        i <= s < e <= x.len(),
        x == x.take(s) + x.subrange(s, e) + x.skip(e),
        tidy(x.take(s)),
        tidy(x.subrange(s, e)),
        tidy(x.skip(e)),
        x[s] == 60,
        x[e - 1] == 62,
        tag_of(x.take(s), open, value, i) is None,
        occurs_at(x.subrange(s, e), utf8(open), 0),
        refers_to(tag_at(x.subrange(s, e), 0), value),
        element_stop(x.subrange(s, e), 0, close) == Some(e - s),
{
    lemma_tag_of(x, open, value, i);
    lemma_byte_at(x, utf8(open), s, 0);
    lemma_tidy_tag(x, s);
    let stop = tag_stop(x, s);
    lemma_find_from(x, utf8(close), stop);
    if !is_closed(tag_at(x, s)) {
        let end = find_from(x, utf8(close), stop)->0;
        lemma_byte_at(x, utf8(close), end, utf8(close).len() - 1);
    }
    let a = x.take(s);
    let k = x.subrange(s, e);
    let b = x.skip(e);
    assert(x =~= a + (k + b));
    assert(x =~= a + k + b);
    assert((k + b)[0] == x[s]);
    lemma_tidy_split(a, k + b);
    assert(k.last() == x[e - 1]);
    lemma_tidy_split(k, b);
    lemma_tag_of_pieces(a, k + b, open, value, i);
    lemma_tag_of(a, open, value, i);
    if let Some(p) = tag_of(a, open, value, i) {
        assert(p < a.len());
    }
    assert(k[0] == x[s]);
    lemma_tag_behind(a, k + b, 0);
    lemma_tag_in_front(k, b, 0);
    assert(x.subrange(s, s + utf8(open).len()) == utf8(open));
    lemma_occurs_back(a, k + b, utf8(open), 0);
    lemma_occurs_front(k, b, utf8(open), 0);
    lemma_stop_back(a, k + b, 0, close);
    lemma_find_pieces(k, b, utf8(close), tag_stop(k, 0));
    lemma_find_from(k, utf8(close), tag_stop(k, 0));
    lemma_find_from(b, utf8(close), 0);
}

} // verus!
