//! What is found in bytes, and what takes its place.

use vstd::prelude::*;
use crate::bytes::{find, insert, lemma_find_from, lemma_rfind, occurs_at, replace, rfind};

verus! {

/// Bytes that stand somewhere have other bytes in front of them and behind them.
pub proof fn law_occurs(a: Seq<u8>, needle: Seq<u8>, b: Seq<u8>, hay: Seq<u8>, i: int)
    ensures
        occurs_at(a + needle + b, needle, a.len() as int),
        occurs_at(hay, needle, i) ==> 0 <= i && i + needle.len() <= hay.len() && hay == hay.take(i)
            + needle + hay.skip((i + needle.len()) as int),
{
    assert((a + needle + b).subrange(a.len() as int, (a.len() + needle.len()) as int) =~= needle);
    if occurs_at(hay, needle, i) {
        assert(hay =~= hay.take(i) + needle + hay.skip((i + needle.len()) as int));
    }
}

/// The first place where bytes stand is one where they do, and no place in front of it is one.
pub proof fn law_first_place(a: Seq<u8>, needle: Seq<u8>, b: Seq<u8>)
    ensures
        find(a + needle + b, needle) matches Some(p) && {
            &&& 0 <= p <= a.len()
            &&& occurs_at(a + needle + b, needle, p)
            &&& forall|i: int| 0 <= i < p ==> !#[trigger] occurs_at(a + needle + b, needle, i)
        },
{
    lemma_find_from(a + needle + b, needle, 0);
    law_occurs(a, needle, b, a, 0);
    assert(occurs_at(a + needle + b, needle, a.len() as int));
}

/// The last place where bytes stand is one where they do, and no place behind it is one.
pub proof fn law_last_place(a: Seq<u8>, needle: Seq<u8>, b: Seq<u8>)
    ensures
        rfind(a + needle + b, needle) matches Some(p) && {
            &&& a.len() <= p
            &&& occurs_at(a + needle + b, needle, p)
            &&& forall|i: int| p < i ==> !#[trigger] occurs_at(a + needle + b, needle, i)
        },
{
    lemma_rfind(a + needle + b, needle);
    law_occurs(a, needle, b, a, 0);
    assert(occurs_at(a + needle + b, needle, a.len() as int));
}

/// What takes the place of bytes stands where they stood, between what was in front of them and what
/// was behind them.
pub proof fn law_replaced(a: Seq<u8>, was: Seq<u8>, b: Seq<u8>, new: Seq<u8>)
    ensures
        replace(a + was + b, a.len() as int, (a.len() + was.len()) as int, new) == a + new + b,
        insert(a + b, a.len() as int, new) == a + new + b,
{
    assert(replace(a + was + b, a.len() as int, (a.len() + was.len()) as int, new) =~= a + new + b);
    assert(insert(a + b, a.len() as int, new) =~= a + new + b);
}

} // verus!
