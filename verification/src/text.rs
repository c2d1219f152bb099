//! Text: decimal numbers, the shape of a number, letter case, splitting and trimming.

use vstd::prelude::*;
use vstd::string::*;
use vstd::utf8::*;
use crate::bytes::{
    find_bytes_from, find_from, lemma_find_from, lemma_rfind, occurs_at, position, rfind,
    rfind_bytes,
};

verus! {

/// `std::str::Utf8Error`, carried through unread.
#[verifier::external_type_specification]
#[verifier::external_body]
pub struct ExUtf8Error(std::str::Utf8Error);

/// `std::num::ParseIntError`, carried through unread.
#[verifier::external_type_specification]
#[verifier::external_body]
pub struct ExParseIntError(std::num::ParseIntError);

/// The UTF-8 bytes of `text`.
pub open spec fn utf8(text: Seq<char>) -> Seq<u8> {
    encode_utf8(text)
}

/// The text that `String::from_utf8_lossy` makes of `bytes`.
pub uninterp spec fn utf8_lossy(bytes: Seq<u8>) -> Seq<char>;

/// Calls `std::str::from_utf8`: bytes that are valid UTF-8 come back as the text that they
/// encode, and any others are refused.
#[verifier::external_body]
pub(crate) fn utf8_text(bytes: &[u8]) -> (text: Result<&str, std::str::Utf8Error>)
    ensures
        text is Ok <==> valid_utf8(bytes@),
        text matches Ok(t) ==> utf8(t@) == bytes@,
{
    std::str::from_utf8(bytes)
}

/// Calls `String::from_utf8_lossy`: bytes that are valid UTF-8 come back as the text that they
/// encode. What stands in for the broken parts of other bytes is a function of the bytes alone.
#[verifier::external_body]
pub(crate) fn lossy_text(bytes: &[u8]) -> (text: String)
    ensures
        text@ == utf8_lossy(bytes@),
        valid_utf8(bytes@) ==> utf8(text@) == bytes@,
{
    String::from_utf8_lossy(bytes).into_owned()
}

/// The text of an attribute's value: the text that its bytes encode, and where they are not valid
/// UTF-8, what `String::from_utf8_lossy` makes of them.
pub open spec fn lossy(bytes: Seq<u8>) -> Seq<char> {
    match text_of(bytes) {
        Some(text) => text,
        None => utf8_lossy(bytes),
    }
}

/// The text of an attribute's value.
pub fn lossy_string(bytes: &[u8]) -> (text: String)
    ensures
        text@ == lossy(bytes@),
{
    let text = lossy_text(bytes);
    proof {
        if valid_utf8(bytes@) {
            encode_utf8_decode_utf8(text@);
        }
    }
    text
}

/// Calls `str::parse::<u32>`: an optional `+` and one or more ASCII digits are read as a decimal
/// number, and any other text, or a number above `u32::MAX`, is refused.
#[verifier::external_body]
pub(crate) fn parse_u32(text: &str) -> (number: Result<u32, std::num::ParseIntError>)
    ensures
        match number {
            Ok(n) => u32_of(text@) == Some(n),
            Err(_) => u32_of(text@) is None,
        },
{
    text.parse::<u32>()
}

/// Calls `str::parse::<usize>`: an optional `+` and one or more ASCII digits are read as a decimal
/// number, and any other text, or a number above `usize::MAX`, is refused.
#[verifier::external_body]
pub(crate) fn parse_usize(text: &str) -> (number: Option<usize>)
    ensures
        number == usize_of(text@),
{
    text.parse::<usize>().ok()
}

// ---- characters ---------------------------------------------------------------------------

/// An ASCII digit.
pub open spec fn is_digit(c: char) -> bool {
    '0' <= c <= '9'
}

/// An ASCII letter.
pub open spec fn is_letter(c: char) -> bool {
    ('A' <= c <= 'Z') || ('a' <= c <= 'z')
}

/// `c` with an ASCII small letter turned into the capital one.
pub open spec fn upper(c: char) -> char {
    if 'a' <= c <= 'z' {
        (c as u32 - 32) as u32 as char
    } else {
        c
    }
}

/// `text` with every ASCII small letter turned into the capital one.
pub open spec fn uppercase(text: Seq<char>) -> Seq<char> {
    Seq::new(text.len(), |i: int| upper(text[i]))
}

/// A character with Unicode's `White_Space` property.
pub open spec fn is_space(c: char) -> bool {
    ||| '\u{9}' <= c <= '\u{d}'
    ||| c == '\u{20}'
    ||| c == '\u{85}'
    ||| c == '\u{a0}'
    ||| c == '\u{1680}'
    ||| '\u{2000}' <= c <= '\u{200a}'
    ||| c == '\u{2028}'
    ||| c == '\u{2029}'
    ||| c == '\u{202f}'
    ||| c == '\u{205f}'
    ||| c == '\u{3000}'
}

/// Every character of `text` is an ASCII digit, and there is one.
pub open spec fn all_digits(text: Seq<char>) -> bool {
    text.len() > 0 && forall|i: int| 0 <= i < text.len() ==> is_digit(#[trigger] text[i])
}

/// Every character of `text` is an ASCII letter, and there is one.
pub open spec fn all_letters(text: Seq<char>) -> bool {
    text.len() > 0 && forall|i: int| 0 <= i < text.len() ==> is_letter(#[trigger] text[i])
}

/// The characters of `text`.
pub fn chars_of(text: &str) -> (chars: Vec<char>)
    ensures
        chars@ == text@,
{
    let mut chars: Vec<char> = Vec::new();
    for c in iter: text.chars()
        invariant
            iter.seq() == text@,
            chars@ == text@.subrange(0, iter.index() as int),
    {
        chars.push(c);
        assert(chars@ =~= text@.subrange(0, iter.index() + 1));
    }
    assert(text@.subrange(0, text@.len() as int) =~= text@);
    chars
}

/// The capital form of an ASCII letter, and any other character as it is.
pub fn upper_char(c: char) -> (u: char)
    ensures
        u == upper(c),
{
    if 'a' <= c && c <= 'z' {
        (c as u8 - 32) as char
    } else {
        c
    }
}

// ---- decimal numbers ----------------------------------------------------------------------

/// The character for a digit from 0 to 9.
pub open spec fn digit_char(d: int) -> char {
    (48 + d) as u32 as char
}

/// The decimal digits of `n`, without leading zeros.
pub open spec fn decimal(n: nat) -> Seq<char>
    decreases n,
{
    if n < 10 {
        seq![digit_char(n as int)]
    } else {
        decimal(n / 10).push(digit_char((n % 10) as int))
    }
}

/// The number that a row of digits stands for.
pub open spec fn digits_value(digits: Seq<char>) -> nat
    decreases digits.len(),
{
    if digits.len() == 0 {
        0
    } else {
        digits_value(digits.drop_last()) * 10 + (digits.last() as nat - 48) as nat
    }
}

/// The number that `text` writes in decimal: digits, after an optional `+`.
pub open spec fn number_of(text: Seq<char>) -> Option<nat> {
    let digits = if text.len() > 0 && text[0] == '+' {
        text.skip(1)
    } else {
        text
    };
    if all_digits(digits) {
        Some(digits_value(digits))
    } else {
        None
    }
}

/// The number that `text` writes in decimal, where a `u32` can hold it.
pub open spec fn u32_of(text: Seq<char>) -> Option<u32> {
    match number_of(text) {
        Some(n) => if n <= u32::MAX {
            Some(n as u32)
        } else {
            None
        },
        None => None,
    }
}

/// The number that `text` writes in decimal, where a `usize` can hold it.
pub open spec fn usize_of(text: Seq<char>) -> Option<usize> {
    match number_of(text) {
        Some(n) => if n <= usize::MAX {
            Some(n as usize)
        } else {
            None
        },
        None => None,
    }
}

/// Every decimal is made of digits.
pub proof fn lemma_decimal_digits(n: nat)
    ensures
        all_digits(decimal(n)),
    decreases n,
{
    if n >= 10 {
        lemma_decimal_digits(n / 10);
        let d = decimal(n);
        assert forall|i: int| 0 <= i < d.len() implies is_digit(#[trigger] d[i]) by {
            if i < d.len() - 1 {
                assert(d[i] == decimal(n / 10)[i]);
            }
        }
    }
}

/// Reading the decimal of a number gives the number back.
pub proof fn lemma_decimal_value(n: nat)
    ensures
        digits_value(decimal(n)) == n,
    decreases n,
{
    reveal_with_fuel(digits_value, 2);
    if n >= 10 {
        lemma_decimal_value(n / 10);
        assert(decimal(n).drop_last() =~= decimal(n / 10));
    } else {
        assert(decimal(n).drop_last() =~= Seq::<char>::empty());
    }
}

/// A number written in decimal is read back as itself.
pub proof fn lemma_decimal_reads_back(n: nat)
    ensures
        number_of(decimal(n)) == Some(n),
{
    lemma_decimal_digits(n);
    lemma_decimal_value(n);
    assert(is_digit(decimal(n)[0]));
}

/// The bytes of an ASCII text, as characters.
pub open spec fn ascii_chars(bytes: Seq<u8>) -> Seq<char> {
    Seq::new(bytes.len(), |i: int| bytes[i] as char)
}

/// ASCII bytes are the UTF-8 form of the same characters.
pub proof fn lemma_ascii(bytes: Seq<u8>)
    requires
        forall|i: int| 0 <= i < bytes.len() ==> #[trigger] bytes[i] < 128,
    ensures
        utf8(ascii_chars(bytes)) == bytes,
        valid_utf8(bytes),
{
    let chars = ascii_chars(bytes);
    assert(is_ascii_chars(chars)) by {
        assert forall|i: int| 0 <= i < chars.len() implies '\0' <= #[trigger] chars[i] <= '\u{7f}' by {
            assert(bytes[i] < 128);
        }
    }
    is_ascii_chars_encode_utf8(chars);
    assert forall|i: int| 0 <= i < bytes.len() implies encode_utf8(chars)[i] == bytes[i] by {
        assert(bytes[i] < 128);
        assert(chars[i] as u8 == encode_utf8(chars)[i]);
    }
    assert(encode_utf8(chars) =~= bytes);
    encode_utf8_valid_utf8(chars);
}

/// Two texts with the same UTF-8 form are the same text.
pub proof fn lemma_utf8_injective(a: Seq<char>, b: Seq<char>)
    requires
        utf8(a) == utf8(b),
    ensures
        a == b,
{
    encode_utf8_decode_utf8(a);
    encode_utf8_decode_utf8(b);
}

/// The text made of ASCII bytes.
pub fn ascii_text(bytes: &[u8]) -> (text: String)
    requires
        forall|i: int| 0 <= i < bytes@.len() ==> #[trigger] bytes@[i] < 128,
    ensures
        text@ == ascii_chars(bytes@),
{
    proof {
        lemma_ascii(bytes@);
    }
    match utf8_text(bytes) {
        Ok(t) => {
            proof {
                lemma_utf8_injective(t@, ascii_chars(bytes@));
            }
            t.to_owned()
        },
        Err(_) => String::new(),
    }
}

/// The ASCII digits of `n`.
fn decimal_bytes(n: u64) -> (digits: Vec<u8>)
    ensures
        ascii_chars(digits@) == decimal(n as nat),
        forall|i: int| 0 <= i < digits@.len() ==> #[trigger] digits@[i] < 128,
    decreases n,
{
    let mut digits: Vec<u8> = Vec::new();
    if n >= 10 {
        digits = decimal_bytes(n / 10);
    }
    let ghost before = digits@;
    let last: u8 = 48 + (n % 10) as u8;
    digits.push(last);
    proof {
        assert(last as char == digit_char((n % 10) as int));
        assert(ascii_chars(digits@) =~= ascii_chars(before).push(last as char));
        assert(ascii_chars(digits@) =~= decimal(n as nat));
    }
    digits
}

/// `n` in decimal.
pub fn decimal_text(n: u64) -> (text: String)
    ensures
        text@ == decimal(n as nat),
{
    let digits = decimal_bytes(n);
    ascii_text(digits.as_slice())
}

// ---- runs of characters -------------------------------------------------------------------

/// The first position at or after `i` that does not hold a digit.
pub open spec fn digits_end(text: Seq<char>, i: int) -> int
    decreases text.len() - i,
{
    if 0 <= i < text.len() && is_digit(text[i]) {
        digits_end(text, i + 1)
    } else {
        i
    }
}

/// The first position at or after `i` that holds a digit, or the end of the text.
pub open spec fn digit_start(text: Seq<char>, i: int) -> int
    decreases text.len() - i,
{
    if 0 <= i < text.len() && !is_digit(text[i]) {
        digit_start(text, i + 1)
    } else {
        i
    }
}

/// The first position at or after `i` that does not hold white space.
pub open spec fn space_end(text: Seq<char>, i: int) -> int
    decreases text.len() - i,
{
    if 0 <= i < text.len() && is_space(text[i]) {
        space_end(text, i + 1)
    } else {
        i
    }
}

/// The position behind the last character before `i` that is not white space.
pub open spec fn space_start(text: Seq<char>, i: int) -> int
    decreases i,
{
    if 0 < i <= text.len() && is_space(text[i - 1]) {
        space_start(text, i - 1)
    } else {
        i
    }
}

/// The first position at or after `i` that does not hold a digit.
pub fn digits_end_at(text: &[char], i: usize) -> (end: usize)
    requires
        i <= text@.len(),
    ensures
        end == digits_end(text@, i as int),
        i <= end <= text@.len(),
{
    let mut end: usize = i;
    while end < text.len() && '0' <= text[end] && text[end] <= '9'
        invariant
            i <= end <= text@.len(),
            digits_end(text@, i as int) == digits_end(text@, end as int),
        decreases text@.len() - end,
    {
        end += 1;
    }
    end
}

/// The first position that holds a digit, or the end of the text.
pub fn digit_start_of(text: &[char]) -> (start: usize)
    ensures
        start == digit_start(text@, 0),
        start <= text@.len(),
        start < text@.len() ==> is_digit(text@[start as int]),
{
    let mut start: usize = 0;
    while start < text.len() && !('0' <= text[start] && text[start] <= '9')
        invariant
            start <= text@.len(),
            digit_start(text@, 0) == digit_start(text@, start as int),
        decreases text@.len() - start,
    {
        start += 1;
    }
    start
}

/// Whether `c` is white space.
fn is_space_char(c: char) -> (space: bool)
    ensures
        space == is_space(c),
{
    ('\u{9}' <= c && c <= '\u{d}') || c == '\u{20}' || c == '\u{85}' || c == '\u{a0}' || c
        == '\u{1680}' || ('\u{2000}' <= c && c <= '\u{200a}') || c == '\u{2028}' || c == '\u{2029}'
        || c == '\u{202f}' || c == '\u{205f}' || c == '\u{3000}'
}

/// `text` without the white space at its two ends.
pub open spec fn trim(text: Seq<char>) -> Seq<char> {
    let from = space_end(text, 0);
    let to = space_start(text, text.len() as int);
    if from < to {
        text.subrange(from, to)
    } else {
        Seq::empty()
    }
}

/// The pieces of `text` between the places where `separator` stands.
pub open spec fn split(text: Seq<char>, separator: char) -> Seq<Seq<char>>
    decreases text.len(),
{
    if text.len() == 0 {
        seq![Seq::empty()]
    } else {
        let rest = split(text.drop_last(), separator);
        if text.last() == separator {
            rest.push(Seq::empty())
        } else {
            rest.drop_last().push(rest.last().push(text.last()))
        }
    }
}

/// The characters between `from` and `to`.
pub fn copy_chars(text: &[char], from: usize, to: usize) -> (out: Vec<char>)
    requires
        from <= to <= text@.len(),
    ensures
        out@ == text@.subrange(from as int, to as int),
{
    let mut out: Vec<char> = Vec::new();
    let mut i: usize = from;
    while i < to
        invariant
            from <= i <= to <= text@.len(),
            out@ == text@.subrange(from as int, i as int),
        decreases to - i,
    {
        out.push(text[i]);
        i += 1;
        assert(out@ =~= text@.subrange(from as int, i as int));
    }
    out
}

/// `text` without the white space at its two ends.
pub fn trim_chars(text: &[char]) -> (out: Vec<char>)
    ensures
        out@ == trim(text@),
{
    let mut from: usize = 0;
    while from < text.len() && is_space_char(text[from])
        invariant
            from <= text@.len(),
            space_end(text@, 0) == space_end(text@, from as int),
        decreases text@.len() - from,
    {
        from += 1;
    }
    let mut to: usize = text.len();
    while to > 0 && is_space_char(text[to - 1])
        invariant
            to <= text@.len(),
            space_start(text@, text@.len() as int) == space_start(text@, to as int),
        decreases to,
    {
        to -= 1;
    }
    if from < to {
        copy_chars(text, from, to)
    } else {
        Vec::new()
    }
}

/// `text` with every ASCII small letter turned into the capital one.
pub fn uppercase_chars(text: &[char]) -> (out: Vec<char>)
    ensures
        out@ == uppercase(text@),
{
    let mut out: Vec<char> = Vec::new();
    let mut i: usize = 0;
    while i < text.len()
        invariant
            i <= text@.len(),
            out@ == uppercase(text@).subrange(0, i as int),
        decreases text@.len() - i,
    {
        out.push(upper_char(text[i]));
        i += 1;
        assert(out@ =~= uppercase(text@).subrange(0, i as int));
    }
    assert(out@ =~= uppercase(text@));
    out
}

/// The views of a list of texts.
pub open spec fn chars_views(list: Seq<Vec<char>>) -> Seq<Seq<char>> {
    Seq::new(list.len(), |i: int| list[i]@)
}

/// The pieces of `text` between the places where `separator` stands.
pub fn split_chars(text: &[char], separator: char) -> (pieces: Vec<Vec<char>>)
    ensures
        chars_views(pieces@) == split(text@, separator),
{
    let mut pieces: Vec<Vec<char>> = Vec::new();
    let mut piece: Vec<char> = Vec::new();
    let mut i: usize = 0;
    assert(text@.subrange(0, 0) =~= Seq::<char>::empty());
    assert(chars_views(pieces@).push(piece@) =~= seq![Seq::<char>::empty()]);
    while i < text.len()
        invariant
            i <= text@.len(),
            chars_views(pieces@).push(piece@) == split(text@.subrange(0, i as int), separator),
        decreases text@.len() - i,
    {
        let c: char = text[i];
        let ghost before = split(text@.subrange(0, i as int), separator);
        assert(text@.subrange(0, i + 1).drop_last() =~= text@.subrange(0, i as int));
        assert(before.drop_last() =~= chars_views(pieces@));
        if c == separator {
            pieces.push(piece);
            piece = Vec::new();
            assert(chars_views(pieces@) =~= before);
        } else {
            piece.push(c);
        }
        i += 1;
        assert(chars_views(pieces@).push(piece@) =~= split(
            text@.subrange(0, i as int),
            separator,
        ));
    }
    assert(text@.subrange(0, text@.len() as int) =~= text@);
    let ghost done = pieces@;
    pieces.push(piece);
    assert(chars_views(pieces@) =~= chars_views(done).push(piece@));
    pieces
}

/// A text is always split into one piece at least.
pub proof fn lemma_split_not_empty(text: Seq<char>, separator: char)
    ensures
        split(text, separator).len() > 0,
    decreases text.len(),
{
    if text.len() > 0 {
        lemma_split_not_empty(text.drop_last(), separator);
    }
}

/// Whether two texts are the same.
pub fn same_chars(a: &[char], b: &[char]) -> (same: bool)
    ensures
        same == (a@ == b@),
{
    if a.len() != b.len() {
        return false;
    }
    let mut i: usize = 0;
    while i < a.len()
        invariant
            a@.len() == b@.len(),
            i <= a@.len(),
            forall|j: int| 0 <= j < i ==> a@[j] == b@[j],
        decreases a@.len() - i,
    {
        if a[i] != b[i] {
            return false;
        }
        i += 1;
    }
    assert(a@ =~= b@);
    true
}

// ---- the shape of a number ----------------------------------------------------------------

/// `text` without a sign in front.
pub open spec fn unsigned(text: Seq<char>) -> Seq<char> {
    if text.len() > 0 && (text[0] == '+' || text[0] == '-') {
        text.skip(1)
    } else {
        text
    }
}

/// The rest of a number behind its digits: nothing, or `e` with a whole number.
pub open spec fn is_exponent(text: Seq<char>) -> bool {
    text.len() == 0 || ((text[0] == 'e' || text[0] == 'E') && all_digits(unsigned(text.skip(1))))
}

/// Digits with at most one point among them, and an exponent at the end if need be.
pub open spec fn is_plain_number(text: Seq<char>) -> bool {
    let whole = digits_end(text, 0);
    if whole < text.len() && text[whole] == '.' {
        let end = digits_end(text, whole + 1);
        end > 1 && is_exponent(text.skip(end))
    } else {
        whole > 0 && is_exponent(text.skip(whole))
    }
}

/// What a floating-point number looks like: an optional sign, then `inf`, `infinity` or `nan` in
/// letters of any case, or a plain number.
pub open spec fn is_number(text: Seq<char>) -> bool {
    let body = unsigned(text);
    ||| uppercase(body) == "INF"@
    ||| uppercase(body) == "INFINITY"@
    ||| uppercase(body) == "NAN"@
    ||| is_plain_number(body)
}

/// A run of digits that reaches the end is all there is.
proof fn lemma_digits_end(text: Seq<char>, i: int)
    requires
        0 <= i <= text.len(),
    ensures
        i <= digits_end(text, i) <= text.len(),
        forall|k: int| i <= k < digits_end(text, i) ==> is_digit(#[trigger] text[k]),
        digits_end(text, i) < text.len() ==> !is_digit(text[digits_end(text, i)]),
    decreases text.len() - i,
{
    if i < text.len() && is_digit(text[i]) {
        lemma_digits_end(text, i + 1);
    }
}

/// Whether the characters from `from` on are one or more digits.
pub fn digits_from(text: &[char], from: usize) -> (all: bool)
    requires
        from <= text@.len(),
    ensures
        all == all_digits(text@.skip(from as int)),
{
    let end: usize = digits_end_at(text, from);
    proof {
        lemma_digits_end(text@, from as int);
        let tail = text@.skip(from as int);
        if end == text@.len() {
            assert forall|k: int| 0 <= k < tail.len() implies is_digit(#[trigger] tail[k]) by {
                assert(is_digit(text@[from + k]));
            }
        } else {
            assert(!is_digit(tail[end - from]));
        }
    }
    from < end && end == text.len()
}

/// Where the text behind `from` starts once a sign there is left out.
fn after_sign(text: &[char], from: usize) -> (start: usize)
    requires
        from <= text@.len(),
    ensures
        from <= start <= text@.len(),
        text@.skip(start as int) == unsigned(text@.skip(from as int)),
{
    let start: usize = if from < text.len() && (text[from] == '+' || text[from] == '-') {
        from + 1
    } else {
        from
    };
    assert(text@.skip(start as int) =~= unsigned(text@.skip(from as int)));
    start
}

/// Whether the characters from `from` on are an exponent, or nothing.
fn exponent_from(text: &[char], from: usize) -> (ok: bool)
    requires
        from <= text@.len(),
    ensures
        ok == is_exponent(text@.skip(from as int)),
{
    if from == text.len() {
        return true;
    }
    if text[from] != 'e' && text[from] != 'E' {
        return false;
    }
    let start: usize = after_sign(text, from + 1);
    assert(text@.skip(from as int).skip(1) =~= text@.skip(from + 1));
    digits_from(text, start)
}

/// Whether `text` is a plain number.
fn plain_number(text: &[char]) -> (ok: bool)
    ensures
        ok == is_plain_number(text@),
{
    let whole: usize = digits_end_at(text, 0);
    if whole < text.len() && text[whole] == '.' {
        let end: usize = digits_end_at(text, whole + 1);
        end > 1 && exponent_from(text, end)
    } else {
        whole > 0 && exponent_from(text, whole)
    }
}

/// Whether `text` reads as a floating-point number.
pub fn looks_like_number(text: &str) -> (number: bool)
    ensures
        number == is_number(text@),
{
    let chars = chars_of(text);
    let start: usize = after_sign(chars.as_slice(), 0);
    assert(text@.skip(0) =~= text@);
    let body = copy_chars(chars.as_slice(), start, chars.len());
    assert(body@ =~= unsigned(text@));
    let capital = uppercase_chars(body.as_slice());
    let inf = chars_of("INF");
    let infinity = chars_of("INFINITY");
    let nan = chars_of("NAN");
    same_chars(capital.as_slice(), inf.as_slice()) || same_chars(
        capital.as_slice(),
        infinity.as_slice(),
    ) || same_chars(capital.as_slice(), nan.as_slice()) || plain_number(body.as_slice())
}

// ---- text and bytes -----------------------------------------------------------------------

/// The text that `bytes` encode, where they are valid UTF-8.
pub open spec fn text_of(bytes: Seq<u8>) -> Option<Seq<char>> {
    if valid_utf8(bytes) {
        Some(decode_utf8(bytes))
    } else {
        None
    }
}

/// The number that `bytes` write in decimal, where they are UTF-8 and a `u32` can hold it.
pub open spec fn u32_of_bytes(bytes: Seq<u8>) -> Option<u32> {
    match text_of(bytes) {
        Some(text) => u32_of(text),
        None => None,
    }
}

/// Whether two texts are the same.
pub fn same_text(a: &str, b: &str) -> (same: bool)
    ensures
        same == (a@ == b@),
{
    let same = crate::bytes::same_bytes(a.as_bytes(), b.as_bytes());
    proof {
        if same {
            lemma_utf8_injective(a@, b@);
        }
    }
    same
}

/// The text that `bytes` encode.
pub fn decode(bytes: &[u8]) -> (text: Result<&str, std::str::Utf8Error>)
    ensures
        match text {
            Ok(t) => text_of(bytes@) == Some(t@),
            Err(_) => text_of(bytes@) is None,
        },
{
    match utf8_text(bytes) {
        Ok(t) => {
            proof {
                encode_utf8_decode_utf8(t@);
            }
            Ok(t)
        },
        Err(e) => Err(e),
    }
}

/// Three texts, one behind the other.
pub fn join3(a: &str, b: &str, c: &str) -> (text: String)
    ensures
        text@ == a@ + b@ + c@,
{
    let mut text: String = a.to_owned();
    text.append(b);
    text.append(c);
    text
}

/// The first position at or after `start` where `needle` stands in `hay`.
pub fn locate(hay: &[u8], needle: &str, start: usize) -> (found: Option<usize>)
    requires
        start <= hay@.len(),
    ensures
        position(found) == find_from(hay@, utf8(needle@), start as int),
        found matches Some(p) ==> start <= p && occurs_at(hay@, utf8(needle@), p as int),
        hay@.len() <= usize::MAX,
{
    proof {
        lemma_find_from(hay@, utf8(needle@), start as int);
    }
    let _total: usize = hay.len();
    let needle: &[u8] = needle.as_bytes();
    if needle.len() == 0 {
        assert(hay@.subrange(start as int, start as int) =~= needle@);
        Some(start)
    } else {
        find_bytes_from(hay, needle, start)
    }
}

/// The last position where `needle` stands in `hay`.
pub fn locate_last(hay: &[u8], needle: &str) -> (found: Option<usize>)
    ensures
        position(found) == rfind(hay@, utf8(needle@)),
        found matches Some(p) ==> occurs_at(hay@, utf8(needle@), p as int),
        hay@.len() <= usize::MAX,
{
    proof {
        lemma_rfind(hay@, utf8(needle@));
    }
    let total: usize = hay.len();
    let needle: &[u8] = needle.as_bytes();
    if needle.len() == 0 {
        assert(hay@.subrange(hay@.len() as int, hay@.len() as int) =~= needle@);
        Some(total)
    } else {
        rfind_bytes(hay, needle)
    }
}

/// The UTF-8 form of two texts, one behind the other, is that of the first and then that of the
/// second.
pub proof fn lemma_utf8_concat(a: Seq<char>, b: Seq<char>)
    ensures
        utf8(a + b) == utf8(a) + utf8(b),
    decreases a.len(),
{
    if a.len() == 0 {
        assert(a + b =~= b);
        assert(utf8(a) + utf8(b) =~= utf8(b));
    } else {
        lemma_utf8_concat(a.drop_first(), b);
        assert((a + b).drop_first() =~= a.drop_first() + b);
        assert(utf8(a + b) =~= encode_scalar(a[0] as u32) + (utf8(a.drop_first()) + utf8(b)));
        assert(utf8(a + b) =~= utf8(a) + utf8(b));
    }
}

/// The UTF-8 form of an ASCII text has one byte for each character.
pub proof fn lemma_utf8_ascii(text: Seq<char>)
    requires
        is_ascii_chars(text),
    ensures
        utf8(text).len() == text.len(),
        forall|i: int| 0 <= i < text.len() ==> #[trigger] utf8(text)[i] == text[i] as u8,
{
    is_ascii_chars_encode_utf8(text);
    assert forall|i: int| 0 <= i < text.len() implies #[trigger] utf8(text)[i] == text[i] as u8 by {
        assert(text[i] as u8 == encode_utf8(text)[i]);
    }
}

/// The views of a list of texts.
pub open spec fn text_views(texts: Seq<String>) -> Seq<Seq<char>> {
    Seq::new(texts.len(), |i: int| texts[i]@)
}

/// The views of the rows of a table.
pub open spec fn table_views(rows: Seq<Vec<String>>) -> Seq<Seq<Seq<char>>> {
    Seq::new(rows.len(), |i: int| text_views(rows[i]@))
}

/// Appends the UTF-8 form of `c`.
fn push_char(out: &mut Vec<u8>, c: char)
    ensures
        final(out)@ == old(out)@ + encode_scalar(c as u32),
{
    let scalar: u32 = c as u32;
    if scalar <= 0x7F {
        out.push((scalar & 0x7F) as u8);
    } else if scalar <= 0x7FF {
        out.push(0xC0 | ((scalar >> 6) & 0x1F) as u8);
        out.push(0x80 | (scalar & 0x3F) as u8);
    } else if scalar <= 0xFFFF {
        out.push(0xE0 | ((scalar >> 12) & 0x0F) as u8);
        out.push(0x80 | ((scalar >> 6) & 0x3F) as u8);
        out.push(0x80 | (scalar & 0x3F) as u8);
    } else {
        out.push(0xF0 | ((scalar >> 18) & 0x7) as u8);
        out.push(0x80 | ((scalar >> 12) & 0x3F) as u8);
        out.push(0x80 | ((scalar >> 6) & 0x3F) as u8);
        out.push(0x80 | (scalar & 0x3F) as u8);
    }
    assert(out@ =~= old(out)@ + encode_scalar(c as u32)) by {
        char_is_scalar(c);
    }
}

/// The text made of `chars`.
pub fn text_from(chars: &[char]) -> (text: String)
    ensures
        text@ == chars@,
{
    let mut out: Vec<u8> = Vec::new();
    let mut i: usize = 0;
    assert(chars@.skip(0) =~= chars@);
    assert(out@ + utf8(chars@) =~= utf8(chars@));
    while i < chars.len()
        invariant
            i <= chars@.len(),
            out@ + utf8(chars@.skip(i as int)) == utf8(chars@),
        decreases chars@.len() - i,
    {
        let ghost before = out@;
        push_char(&mut out, chars[i]);
        assert(chars@.skip(i as int).drop_first() =~= chars@.skip(i + 1));
        assert(out@ + utf8(chars@.skip(i + 1)) =~= before + utf8(chars@.skip(i as int)));
        i += 1;
    }
    assert(chars@.skip(i as int) =~= Seq::<char>::empty());
    assert(out@ =~= utf8(chars@));
    proof {
        encode_utf8_valid_utf8(chars@);
    }
    match utf8_text(out.as_slice()) {
        Ok(t) => {
            proof {
                lemma_utf8_injective(t@, chars@);
            }
            t.to_owned()
        },
        Err(_) => String::new(),
    }
}

} // verus!
