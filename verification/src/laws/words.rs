//! Capitals, white space, and lists with separators.

use vstd::prelude::*;
use crate::query::column_list;
use crate::text::{
    is_letter, is_space, lemma_split_not_empty, space_end, space_start, split, trim, uppercase,
};

verus! {

/// A small letter becomes the capital at the same place in the alphabet, and any other character stays
/// as it is.
pub proof fn law_capitals(text: Seq<char>, i: int)
    requires
        0 <= i < text.len(),
    ensures
        uppercase(text).len() == text.len(),
        forall|k: int|
            0 <= k < 26 && text[i] == (#[trigger] ("abcdefghijklmnopqrstuvwxyz"@)[k])
                ==> uppercase(text)[i] == ("ABCDEFGHIJKLMNOPQRSTUVWXYZ"@)[k],
        !("abcdefghijklmnopqrstuvwxyz"@).contains(text[i]) ==> uppercase(text)[i] == text[i],
{
    reveal_strlit("abcdefghijklmnopqrstuvwxyz");
    reveal_strlit("ABCDEFGHIJKLMNOPQRSTUVWXYZ");
    let small = "abcdefghijklmnopqrstuvwxyz"@;
    if 'a' <= text[i] <= 'z' {
        let k = text[i] as int - 97;
        assert(small[k] == text[i]);
        assert(small.contains(text[i]));
    }
}

/// The letters are those of the alphabet, small and capital.
pub proof fn law_letter(c: char)
    ensures
        is_letter(c) <==> ("abcdefghijklmnopqrstuvwxyz"@).contains(c) || (
        "ABCDEFGHIJKLMNOPQRSTUVWXYZ"@).contains(c),
{
    reveal_strlit("abcdefghijklmnopqrstuvwxyz");
    reveal_strlit("ABCDEFGHIJKLMNOPQRSTUVWXYZ");
    let small = "abcdefghijklmnopqrstuvwxyz"@;
    let capital = "ABCDEFGHIJKLMNOPQRSTUVWXYZ"@;
    if 'a' <= c <= 'z' {
        assert(small[c as int - 97] == c);
    }
    if 'A' <= c <= 'Z' {
        assert(capital[c as int - 65] == c);
    }
    if small.contains(c) {
        let k = choose|k: int| 0 <= k < small.len() && small[k] == c;
        assert(is_letter(small[k]));
    }
    if capital.contains(c) {
        let k = choose|k: int| 0 <= k < capital.len() && capital[k] == c;
        assert(is_letter(capital[k]));
    }
}

/// The white space of Unicode, character by character.
pub open spec fn white_space() -> Seq<char> {
    seq![
        '\u{9}',
        '\u{a}',
        '\u{b}',
        '\u{c}',
        '\u{d}',
        '\u{20}',
        '\u{85}',
        '\u{a0}',
        '\u{1680}',
        '\u{2000}',
        '\u{2001}',
        '\u{2002}',
        '\u{2003}',
        '\u{2004}',
        '\u{2005}',
        '\u{2006}',
        '\u{2007}',
        '\u{2008}',
        '\u{2009}',
        '\u{200a}',
        '\u{2028}',
        '\u{2029}',
        '\u{202f}',
        '\u{205f}',
        '\u{3000}',
    ]
}

/// White space is what Unicode counts as such.
pub proof fn law_white_space(c: char)
    ensures
        is_space(c) <==> white_space().contains(c),
{
    let all = white_space();
    if is_space(c) {
        if '\u{9}' <= c <= '\u{d}' {
            assert(all[c as int - 9] == c);
        } else if '\u{2000}' <= c <= '\u{200a}' {
            assert(all[9 + (c as int - 0x2000)] == c);
        } else if c == '\u{20}' {
            assert(all[5] == c);
        } else if c == '\u{85}' {
            assert(all[6] == c);
        } else if c == '\u{a0}' {
            assert(all[7] == c);
        } else if c == '\u{1680}' {
            assert(all[8] == c);
        } else if c == '\u{2028}' {
            assert(all[20] == c);
        } else if c == '\u{2029}' {
            assert(all[21] == c);
        } else if c == '\u{202f}' {
            assert(all[22] == c);
        } else if c == '\u{205f}' {
            assert(all[23] == c);
        } else {
            assert(all[24] == c);
        }
    }
    if all.contains(c) {
        let k = choose|k: int| 0 <= k < all.len() && all[k] == c;
        assert(is_space(all[k]));
    }
}

/// White space in front.
proof fn lemma_space_end(text: Seq<char>, i: int, n: int)
    requires
        0 <= i <= n <= text.len(),
        forall|k: int| i <= k < n ==> is_space(#[trigger] text[k]),
        n < text.len() ==> !is_space(text[n]),
    ensures
        space_end(text, i) == n,
    decreases n - i,
{
    if i < n {
        lemma_space_end(text, i + 1, n);
    }
}

/// White space at the end.
proof fn lemma_space_start(text: Seq<char>, i: int, n: int)
    requires
        0 <= n <= i <= text.len(),
        forall|k: int| n <= k < i ==> is_space(#[trigger] text[k]),
        n > 0 ==> !is_space(text[n - 1]),
    ensures
        space_start(text, i) == n,
    decreases i - n,
{
    if n < i {
        assert(is_space(text[i - 1]));
        lemma_space_start(text, i - 1, n);
    }
}

/// Trimming takes the white space at both ends away, and nothing else.
pub proof fn law_trim(left: Seq<char>, word: Seq<char>, right: Seq<char>)
    requires
        forall|i: int| 0 <= i < left.len() ==> white_space().contains(#[trigger] left[i]),
        forall|i: int| 0 <= i < right.len() ==> white_space().contains(#[trigger] right[i]),
        word.len() > 0 ==> !white_space().contains(word[0]) && !white_space().contains(word.last()),
    ensures
        trim(left + word + right) == word,
{
    let text = left + word + right;
    let n = left.len() as int;
    let m = n + word.len();
    assert forall|k: int| 0 <= k < n implies is_space(#[trigger] text[k]) by {
        law_white_space(left[k]);
    }
    assert forall|k: int| m <= k < text.len() implies is_space(#[trigger] text[k]) by {
        law_white_space(right[k - m]);
    }
    if word.len() > 0 {
        law_white_space(word[0]);
        law_white_space(word.last());
        assert(text[n] == word[0]);
        assert(text[m - 1] == word.last());
        lemma_space_end(text, 0, n);
        lemma_space_start(text, text.len() as int, m);
        assert(text.subrange(n, m) =~= word);
    } else {
        assert forall|k: int| 0 <= k < text.len() implies is_space(#[trigger] text[k]) by {
            if k < n {
                assert(is_space(text[k]));
            } else {
                assert(is_space(text[k]));
            }
        }
        lemma_space_end(text, 0, text.len() as int);
        lemma_space_start(text, text.len() as int, 0);
        assert(word =~= Seq::<char>::empty());
    }
}

/// A text without the separator is one piece, and a separator parts what stands in front of it from
/// what stands behind it.
pub proof fn law_split(a: Seq<char>, b: Seq<char>, separator: char)
    ensures
        !a.contains(separator) ==> split(a, separator) == seq![a],
        split(a + seq![separator] + b, separator) == split(a, separator) + split(b, separator),
    decreases a.len() + b.len(),
{
    lemma_one_piece(a, separator);
    lemma_two_pieces(a, b, separator);
}

/// A text without the separator is one piece.
proof fn lemma_one_piece(a: Seq<char>, separator: char)
    ensures
        !a.contains(separator) ==> split(a, separator) == seq![a],
    decreases a.len(),
{
    if !a.contains(separator) {
        if a.len() == 0 {
            assert(a =~= Seq::<char>::empty());
        } else {
            let front = a.drop_last();
            assert(!front.contains(separator)) by {
                if front.contains(separator) {
                    let k = choose|k: int| 0 <= k < front.len() && front[k] == separator;
                    assert(a[k] == separator);
                }
            }
            lemma_one_piece(front, separator);
            assert(a[a.len() - 1] != separator);
            assert(front.push(a.last()) =~= a);
            assert(split(a, separator) =~= seq![a]);
        }
    }
}

/// A separator parts a text.
proof fn lemma_two_pieces(a: Seq<char>, b: Seq<char>, separator: char)
    ensures
        split(a + seq![separator] + b, separator) == split(a, separator) + split(b, separator),
    decreases b.len(),
{
    let text = a + seq![separator] + b;
    if b.len() == 0 {
        assert(text.drop_last() =~= a);
        assert(text.last() == separator);
        assert(split(text, separator) =~= split(a, separator) + split(b, separator));
    } else {
        let front = b.drop_last();
        lemma_two_pieces(a, front, separator);
        lemma_split_not_empty(front, separator);
        assert(text.drop_last() =~= a + seq![separator] + front);
        assert(text.last() == b.last());
        assert(split(text, separator) =~= split(a, separator) + split(b, separator));
    }
}

/// A list of columns names each of its pieces, without the white space around it and in capitals.
pub proof fn law_columns_listed(a: Seq<char>, b: Seq<char>)
    ensures
        !a.contains(',') ==> column_list(a) == seq![uppercase(trim(a))],
        column_list(a + ","@ + b) == column_list(a) + column_list(b),
{
    reveal_strlit(",");
    assert(","@ =~= seq![',']);
    law_split(a, b, ',');
    assert(!a.contains(',') ==> column_list(a) =~= seq![uppercase(trim(a))]);
    assert(column_list(a + ","@ + b) =~= column_list(a) + column_list(b));
}

} // verus!
