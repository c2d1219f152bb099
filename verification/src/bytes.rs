//! Searching and editing of byte buffers.

use vstd::prelude::*;

verus! {

/// `needle` stands in `hay` at position `i`.
pub open spec fn occurs_at(hay: Seq<u8>, needle: Seq<u8>, i: int) -> bool {
    &&& 0 <= i
    &&& i + needle.len() <= hay.len()
    &&& hay.subrange(i, i + needle.len()) == needle
}

/// The first position at or after `start` where `needle` stands in `hay`.
pub open spec fn find_from(hay: Seq<u8>, needle: Seq<u8>, start: int) -> Option<int>
    decreases hay.len() - start,
{
    if start < 0 || start + needle.len() > hay.len() {
        None
    } else if occurs_at(hay, needle, start) {
        Some(start)
    } else if start >= hay.len() {
        None
    } else {
        find_from(hay, needle, start + 1)
    }
}

/// The first position where `needle` stands in `hay`.
pub open spec fn find(hay: Seq<u8>, needle: Seq<u8>) -> Option<int> {
    find_from(hay, needle, 0)
}

/// The last position, not after `end`, where `needle` stands in `hay`.
pub open spec fn rfind_upto(hay: Seq<u8>, needle: Seq<u8>, end: int) -> Option<int>
    decreases end,
{
    if end < 0 {
        None
    } else if occurs_at(hay, needle, end) {
        Some(end)
    } else if end == 0 {
        None
    } else {
        rfind_upto(hay, needle, end - 1)
    }
}

/// The last position where `needle` stands in `hay`.
pub open spec fn rfind(hay: Seq<u8>, needle: Seq<u8>) -> Option<int> {
    rfind_upto(hay, needle, hay.len() - needle.len())
}

/// `hay` with the bytes from `from` up to `to` replaced by `new`.
pub open spec fn replace(hay: Seq<u8>, from: int, to: int, new: Seq<u8>) -> Seq<u8> {
    hay.subrange(0, from) + new + hay.subrange(to, hay.len() as int)
}

/// `hay` with `new` put in front of the byte at position `at`.
pub open spec fn insert(hay: Seq<u8>, at: int, new: Seq<u8>) -> Seq<u8> {
    replace(hay, at, at, new)
}

/// What `find_from` means: the place found holds `needle`, and no place between `start` and it does.
pub proof fn lemma_find_from(hay: Seq<u8>, needle: Seq<u8>, start: int)
    requires
        0 <= start,
    ensures
        match find_from(hay, needle, start) {
            Some(p) => start <= p && occurs_at(hay, needle, p) && (forall|i: int|
                start <= i < p ==> !#[trigger] occurs_at(hay, needle, i)),
            None => forall|i: int| start <= i ==> !#[trigger] occurs_at(hay, needle, i),
        },
    decreases hay.len() - start,
{
    if start + needle.len() <= hay.len() && !occurs_at(hay, needle, start) && start < hay.len() {
        lemma_find_from(hay, needle, start + 1);
    }
}

/// What `rfind_upto` means: the place found holds `needle`, and no place between it and `end` does.
pub proof fn lemma_rfind_upto(hay: Seq<u8>, needle: Seq<u8>, end: int)
    ensures
        match rfind_upto(hay, needle, end) {
            Some(p) => 0 <= p <= end && occurs_at(hay, needle, p) && (forall|i: int|
                p < i <= end ==> !#[trigger] occurs_at(hay, needle, i)),
            None => forall|i: int| i <= end ==> !#[trigger] occurs_at(hay, needle, i),
        },
    decreases end,
{
    if end > 0 && !occurs_at(hay, needle, end) {
        lemma_rfind_upto(hay, needle, end - 1);
    }
}

/// What `rfind` means: the place found holds `needle`, and no later place does.
pub proof fn lemma_rfind(hay: Seq<u8>, needle: Seq<u8>)
    ensures
        match rfind(hay, needle) {
            Some(p) => occurs_at(hay, needle, p) && (forall|i: int|
                p < i ==> !#[trigger] occurs_at(hay, needle, i)),
            None => forall|i: int| !#[trigger] occurs_at(hay, needle, i),
        },
{
    lemma_rfind_upto(hay, needle, hay.len() - needle.len());
}

/// The place that holds `needle`, with none before it, is the one that `find_from` gives.
pub proof fn lemma_find_from_is(hay: Seq<u8>, needle: Seq<u8>, start: int, p: int)
    requires
        0 <= start <= p,
        occurs_at(hay, needle, p),
        forall|i: int| start <= i < p ==> !#[trigger] occurs_at(hay, needle, i),
    ensures
        find_from(hay, needle, start) == Some(p),
{
    lemma_find_from(hay, needle, start);
}

/// The place that holds `needle`, with none after it, is the one that `rfind` gives.
pub proof fn lemma_rfind_is(hay: Seq<u8>, needle: Seq<u8>, p: int)
    requires
        occurs_at(hay, needle, p),
        forall|i: int| p < i ==> !#[trigger] occurs_at(hay, needle, i),
    ensures
        rfind(hay, needle) == Some(p),
{
    lemma_rfind(hay, needle);
}

/// An optional position as an integer.
pub open spec fn position(p: Option<usize>) -> Option<int> {
    match p {
        Some(i) => Some(i as int),
        None => None,
    }
}

/// Whether `needle` stands in `hay` at `i`.
pub fn matches_at(hay: &[u8], needle: &[u8], i: usize) -> (found: bool)
    ensures
        found == occurs_at(hay@, needle@, i as int),
{
    if i > hay.len() || needle.len() > hay.len() - i {
        return false;
    }
    let mut k: usize = 0;
    while k < needle.len()
        invariant
            i + needle@.len() <= hay@.len() <= usize::MAX,
            k <= needle@.len(),
            forall|j: int| 0 <= j < k ==> hay@[i + j] == needle@[j],
        decreases needle@.len() - k,
    {
        if hay[i + k] != needle[k] {
            assert(hay@.subrange(i as int, i + needle@.len())[k as int] == hay@[i + k]);
            return false;
        }
        k += 1;
    }
    assert(hay@.subrange(i as int, i + needle@.len()) =~= needle@);
    true
}

/// The first position at or after `start` where `needle` stands in `hay`.
pub fn find_bytes_from(hay: &[u8], needle: &[u8], start: usize) -> (found: Option<usize>)
    requires
        needle@.len() > 0,
        start <= hay@.len(),
    ensures
        position(found) == find_from(hay@, needle@, start as int),
        found matches Some(p) ==> start <= p && p + needle@.len() <= hay@.len(),
{
    let mut i: usize = start;
    while i < hay.len() && needle.len() <= hay.len() - i
        invariant
            needle@.len() > 0,
            start <= i <= hay@.len(),
            find_from(hay@, needle@, start as int) == find_from(hay@, needle@, i as int),
        decreases hay@.len() - i,
    {
        if matches_at(hay, needle, i) {
            return Some(i);
        }
        i += 1;
    }
    None
}

/// The first position where `needle` stands in `hay`.
pub fn find_bytes(hay: &[u8], needle: &[u8]) -> (found: Option<usize>)
    requires
        needle@.len() > 0,
    ensures
        position(found) == find(hay@, needle@),
        found matches Some(p) ==> p + needle@.len() <= hay@.len(),
{
    find_bytes_from(hay, needle, 0)
}

/// The last position where `needle` stands in `hay`.
pub fn rfind_bytes(hay: &[u8], needle: &[u8]) -> (found: Option<usize>)
    requires
        needle@.len() > 0,
    ensures
        position(found) == rfind(hay@, needle@),
        found matches Some(p) ==> p + needle@.len() <= hay@.len(),
{
    if needle.len() > hay.len() {
        return None;
    }
    let mut i: usize = hay.len() - needle.len();
    while !matches_at(hay, needle, i)
        invariant
            i + needle@.len() <= hay@.len(),
            rfind(hay@, needle@) == rfind_upto(hay@, needle@, i as int),
        decreases i,
    {
        if i == 0 {
            return None;
        }
        i -= 1;
    }
    Some(i)
}

/// Appends a copy of `new` to `out`.
pub fn push_bytes(out: &mut Vec<u8>, new: &[u8])
    ensures
        final(out)@ == old(out)@ + new@,
{
    out.extend_from_slice(new);
    assert(out@ =~= old(out)@ + new@);
}

/// A copy of the bytes from `from` up to `to`.
pub fn copy_range(hay: &[u8], from: usize, to: usize) -> (out: Vec<u8>)
    requires
        from <= to <= hay@.len(),
    ensures
        out@ == hay@.subrange(from as int, to as int),
{
    let mut out: Vec<u8> = Vec::new();
    push_bytes(&mut out, vstd::slice::slice_subrange(hay, from, to));
    assert(out@ =~= hay@.subrange(from as int, to as int));
    out
}

/// A copy of `hay`.
pub fn copy_bytes(hay: &[u8]) -> (out: Vec<u8>)
    ensures
        out@ == hay@,
{
    let mut out: Vec<u8> = Vec::new();
    push_bytes(&mut out, hay);
    assert(out@ =~= hay@);
    out
}

/// Replaces the bytes from `from` up to `to` by `new`.
pub fn replace_bytes(xml: &mut Vec<u8>, from: usize, to: usize, new: &[u8])
    requires
        from <= to <= old(xml)@.len(),
    ensures
        final(xml)@ == replace(old(xml)@, from as int, to as int, new@),
{
    let tail = copy_range(xml.as_slice(), to, xml.len());
    xml.truncate(from);
    push_bytes(xml, new);
    push_bytes(xml, tail.as_slice());
}

/// Puts `new` in front of the byte at position `at`.
pub fn insert_bytes(xml: &mut Vec<u8>, at: usize, new: &[u8])
    requires
        at <= old(xml)@.len(),
    ensures
        final(xml)@ == insert(old(xml)@, at as int, new@),
{
    replace_bytes(xml, at, at, new);
}

/// Whether two byte strings are the same.
pub fn same_bytes(a: &[u8], b: &[u8]) -> (same: bool)
    ensures
        same == (a@ == b@),
{
    assert(a@.len() == b@.len() ==> a@.subrange(0, b@.len() as int) =~= a@);
    a.len() == b.len() && matches_at(a, b, 0)
}

} // verus!
