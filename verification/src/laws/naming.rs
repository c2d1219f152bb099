//! What the names of columns, cells and ranges stand for.

use vstd::prelude::*;
use crate::coord::{
    after_colon, before_colon, cell_position, colon_from, column_index, column_index_of_bytes,
    column_letters, column_value, is_cell_name, is_column_bytes, lemma_column_letters,
    lemma_column_value, target_of, upper_byte, TargetView,
};
use crate::error::ErrorView;
use crate::laws::columns::{law_column_round_trip, lemma_letter_bytes};
use crate::query::{column_part, row_part};
use crate::sheet::{coord_row, is_letter_byte, leading_column, letter_bytes_end};
use crate::text::{
    all_digits, all_letters, digit_start, is_digit, is_letter, lemma_utf8_ascii, lemma_utf8_concat,
    u32_of, uppercase, utf8,
};

verus! {

// ---- columns ------------------------------------------------------------------------------

/// A letter of the alphabet, small or capital, stands for the column at its place, and letters in
/// front of it for as many times the alphabet.
pub proof fn law_column_of_letters(front: Seq<char>, k: int)
    requires
        0 <= k < 26,
        front.len() == 0 || all_letters(front),
    ensures
        ({
            let capital = ("ABCDEFGHIJKLMNOPQRSTUVWXYZ"@)[k];
            let small = ("abcdefghijklmnopqrstuvwxyz"@)[k];
            let before = match column_index(front) {
                Some(n) => n + 1,
                None => 0,
            };
            &&& column_index(front.push(capital)) == column_index(front.push(small))
            &&& (front.len() == 0 || column_index(front) is Some) && before * 26 + k < usize::MAX
                ==> column_index(front.push(capital)) == Some((before * 26 + k) as usize)
            &&& (front.len() > 0 && column_index(front) is None) || before * 26 + k >= usize::MAX
                ==> column_index(front.push(capital)) is None
        }),
{
    reveal_strlit("abcdefghijklmnopqrstuvwxyz");
    reveal_strlit("ABCDEFGHIJKLMNOPQRSTUVWXYZ");
    let capital = ("ABCDEFGHIJKLMNOPQRSTUVWXYZ"@)[k];
    let small = ("abcdefghijklmnopqrstuvwxyz"@)[k];
    lemma_column_pushed(front, capital, k);
    lemma_column_pushed(front, small, k);
}

/// One more letter.
proof fn lemma_column_pushed(front: Seq<char>, c: char, k: int)
    requires
        0 <= k < 26,
        c as int == 65 + k || c as int == 97 + k,
        front.len() == 0 || all_letters(front),
    ensures
        column_value(utf8(front)) >= 0,
        front.len() > 0 ==> column_value(utf8(front)) > 0,
        all_letters(front.push(c)),
        is_column_bytes(utf8(front.push(c))),
        front.len() > 0 ==> is_column_bytes(utf8(front)),
        utf8(front.push(c)).len() > 0,
        front.len() > 0 ==> utf8(front).len() > 0,
        front.len() == 0 ==> utf8(front).len() == 0,
        column_value(utf8(front.push(c))) == column_value(utf8(front)) * 26 + k + 1,
{
    let text = front.push(c);
    assert forall|i: int| 0 <= i < text.len() implies is_letter(#[trigger] text[i]) by {
        if i < front.len() {
            assert(is_letter(front[i]));
        }
    }
    lemma_letter_bytes(text);
    let bytes = utf8(text);
    assert(bytes.last() == c as u8);
    if front.len() > 0 {
        lemma_letter_bytes(front);
        lemma_column_value(utf8(front));
        assert(bytes.drop_last() =~= utf8(front));
    } else {
        assert(front =~= Seq::<char>::empty());
        assert(utf8(front) =~= Seq::<u8>::empty());
        assert(bytes.drop_last() =~= utf8(front));
    }
}

/// Bytes name a column byte by byte, as letters do. A byte in front of the capital letters names none, and
/// no bytes name none.
pub proof fn law_column_of_bytes(front: Seq<u8>, b: u8)
    ensures
        ({
            let all = front.push(b);
            let place = if 97 <= b <= 122 {
                b - 97
            } else {
                b - 65
            };
            &&& place < 0 ==> column_index_of_bytes(all) is None
            &&& front.len() == 0 && place >= 0 ==> column_index_of_bytes(all) == Some(place as usize)
            &&& column_index_of_bytes(front) matches Some(n) ==> (place >= 0 && (n + 1) * 26 + place
                < usize::MAX ==> column_index_of_bytes(all) == Some(((n + 1) * 26 + place) as usize))
            &&& !is_column_bytes(front) ==> column_index_of_bytes(all) is None
        }),
        column_index_of_bytes(Seq::empty()) is None,
{
    let all = front.push(b);
    assert(all.drop_last() =~= front);
    assert(all[all.len() - 1] == b);
    if is_column_bytes(front) && upper_byte(b) >= 65 {
        assert forall|i: int| 0 <= i < all.len() implies upper_byte(#[trigger] all[i]) >= 65 by {
            if i < front.len() {
                assert(all[i] == front[i]);
            }
        }
    }
    if !is_column_bytes(front) {
        let i = choose|i: int| 0 <= i < front.len() && upper_byte(#[trigger] front[i]) < 65;
        assert(all[i] == front[i]);
    }
    if front.len() == 0 {
        assert(column_value(front) == 0);
        assert(column_value(all) == upper_byte(b) - 64);
    } else if is_column_bytes(front) {
        lemma_column_value(front);
    }
}

/// The columns are named in the order of the alphabet, one letter before two: the letters of a column
/// are capitals, and stand for it.
pub proof fn law_letters_of_column(n: nat)
    requires
        n < usize::MAX,
    ensures
        column_index(column_letters(n)) == Some(n as usize),
        forall|i: int|
            0 <= i < column_letters(n).len() ==> ("ABCDEFGHIJKLMNOPQRSTUVWXYZ"@).contains(
                #[trigger] column_letters(n)[i],
            ),
{
    reveal_strlit("ABCDEFGHIJKLMNOPQRSTUVWXYZ");
    let capital = "ABCDEFGHIJKLMNOPQRSTUVWXYZ"@;
    law_column_round_trip(n);
    lemma_column_letters(n);
    assert forall|i: int| 0 <= i < column_letters(n).len() implies capital.contains(
        #[trigger] column_letters(n)[i],
    ) by {
        let c = column_letters(n)[i];
        assert('A' <= c <= 'Z');
        assert(capital[c as int - 65] == c);
    }
}

// ---- cells --------------------------------------------------------------------------------

/// The first digit behind a text without digits.
pub proof fn lemma_first_digit(front: Seq<char>, digits: Seq<char>, i: int)
    requires
        0 <= i <= front.len(),
        forall|k: int| 0 <= k < front.len() ==> !is_digit(#[trigger] front[k]),
        digits.len() > 0 ==> is_digit(digits[0]),
    ensures
        digit_start(front + digits, i) == front.len(),
    decreases front.len() - i,
{
    let text = front + digits;
    if i < front.len() {
        assert(text[i] == front[i]);
        lemma_first_digit(front, digits, i + 1);
    } else if digits.len() > 0 {
        assert(text[i] == digits[0]);
    }
}

/// The row of a coordinate is the number from its first digit on.
pub proof fn law_row_of_coordinate(front: Seq<char>, digits: Seq<char>)
    requires
        forall|k: int| 0 <= k < front.len() ==> !is_digit(#[trigger] front[k]),
        digits.len() > 0 ==> is_digit(digits[0]),
    ensures
        coord_row(front + digits) == u32_of(digits),
        column_part(front + digits) == uppercase(front),
        row_part(front + digits) == (match u32_of(digits) {
            Some(row) => row,
            None => 0,
        }),
{
    lemma_first_digit(front, digits, 0);
    assert((front + digits).skip(front.len() as int) =~= digits);
    assert((front + digits).take(front.len() as int) =~= front);
}

/// Letters and digits are the name of the cell in that column and that row; nothing else is the name
/// of a cell.
pub proof fn law_cell_name(letters: Seq<char>, digits: Seq<char>, text: Seq<char>)
    requires
        all_letters(letters),
        all_digits(digits),
    ensures
        is_cell_name(letters + digits),
        coord_row(letters + digits) == u32_of(digits),
        cell_position(letters + digits) == (match (column_index(letters), u32_of(digits)) {
            (Some(column), Some(row)) => Some((column as u32, row)),
            _ => None,
        }),
        column_index(letters) matches Some(column) ==> (column < u32::MAX ==> leading_column(
            utf8(letters + digits),
        ) == Some((column + 1) as u32)),
        is_cell_name(text) ==> exists|l: Seq<char>, d: Seq<char>|
            #![trigger all_letters(l), all_digits(d)]
            all_letters(l) && all_digits(d) && text == l + d,
{
    let name = letters + digits;
    let n = letters.len() as int;
    lemma_no_digits(letters);
    assert(is_digit(digits[0]));
    lemma_first_digit(letters, digits, 0);
    assert(name.skip(n) =~= digits);
    assert(name.take(n) =~= letters);
    lemma_leading(letters, digits);
    if is_cell_name(text) {
        let row = digit_start(text, 0);
        lemma_start_bounds(text, 0);
        assert(text =~= text.take(row) + text.skip(row));
    }
}

/// Letters are no digits.
proof fn lemma_no_digits(letters: Seq<char>)
    requires
        all_letters(letters),
    ensures
        forall|k: int| 0 <= k < letters.len() ==> !is_digit(#[trigger] letters[k]),
{
    assert forall|k: int| 0 <= k < letters.len() implies !is_digit(#[trigger] letters[k]) by {
        assert(is_letter(letters[k]));
    }
}

/// The first digit is found in the text or at its end.
proof fn lemma_start_bounds(text: Seq<char>, i: int)
    requires
        0 <= i <= text.len(),
    ensures
        i <= digit_start(text, i) <= text.len(),
    decreases text.len() - i,
{
    if i < text.len() && !is_digit(text[i]) {
        lemma_start_bounds(text, i + 1);
    }
}

/// The letters in front of other bytes.
proof fn lemma_letters_run(name: Seq<u8>, n: int, i: int)
    requires
        0 <= i <= n <= name.len(),
        forall|k: int| 0 <= k < n ==> is_letter_byte(#[trigger] name[k]),
        n < name.len() ==> !is_letter_byte(name[n]),
    ensures
        letter_bytes_end(name, i) == n,
    decreases n - i,
{
    if i < n {
        lemma_letters_run(name, n, i + 1);
    }
}

/// The column that the name of a cell starts with.
proof fn lemma_leading(letters: Seq<char>, digits: Seq<char>)
    requires
        all_letters(letters),
        all_digits(digits),
    ensures
        column_index(letters) matches Some(column) ==> (column < u32::MAX ==> leading_column(
            utf8(letters + digits),
        ) == Some((column + 1) as u32)),
{
    lemma_letter_bytes(letters);
    lemma_utf8_concat(letters, digits);
    let bytes = utf8(letters + digits);
    let n = letters.len() as int;
    assert(vstd::utf8::is_ascii_chars(digits)) by {
        assert forall|i: int| 0 <= i < digits.len() implies '\0' <= #[trigger] digits[i] <= '\u{7f}' by {
            assert(is_digit(digits[i]));
        }
    }
    lemma_utf8_ascii(digits);
    assert forall|k: int| 0 <= k < n implies is_letter_byte(#[trigger] bytes[k]) by {
        assert(bytes[k] == utf8(letters)[k]);
        assert(is_letter(letters[k]));
    }
    assert(bytes[n] == utf8(digits)[0]);
    assert(is_digit(digits[0]));
    lemma_letters_run(bytes, n, 0);
    assert(bytes.take(n) =~= utf8(letters));
    lemma_column_value(utf8(letters));
}

// ---- ranges -------------------------------------------------------------------------------

/// The first colon behind a text without one.
proof fn lemma_colon(front: Seq<char>, rest: Seq<char>, i: int)
    requires
        0 <= i <= front.len(),
        forall|k: int| 0 <= k < front.len() ==> #[trigger] front[k] != ':',
    ensures
        colon_from(front + ":"@ + rest, i) == front.len(),
    decreases front.len() - i,
{
    reveal_strlit(":");
    let text = front + ":"@ + rest;
    if i < front.len() {
        assert(text[i] == front[i]);
        lemma_colon(front, rest, i + 1);
    } else {
        assert(text[i] == ':');
    }
}

/// The parts of a range with a colon.
proof fn lemma_around_colon(front: Seq<char>, rest: Seq<char>)
    requires
        forall|k: int| 0 <= k < front.len() ==> #[trigger] front[k] != ':',
    ensures
        ({
            let text = front + ":"@ + rest;
            &&& colon_from(text, 0) == front.len()
            &&& text.len() == front.len() + 1 + rest.len()
            &&& before_colon(text) == front
            &&& after_colon(text) == rest
            &&& !is_cell_name(text)
        }),
{
    reveal_strlit(":");
    let text = front + ":"@ + rest;
    lemma_colon(front, rest, 0);
    assert(text.take(front.len() as int) =~= front);
    assert(text.skip((front.len() + 1) as int) =~= rest);
    assert(text[front.len() as int] == ':');
    if is_cell_name(text) {
        crate::laws::shapes::lemma_cell_name_chars(text);
        assert(is_letter(text[front.len() as int]) || is_digit(text[front.len() as int]));
    }
}

/// Letters and digits hold no colon.
proof fn lemma_no_colon(text: Seq<char>)
    requires
        forall|i: int| 0 <= i < text.len() ==> is_letter(#[trigger] text[i]) || is_digit(text[i]),
    ensures
        forall|k: int| 0 <= k < text.len() ==> #[trigger] text[k] != ':',
{
    assert forall|k: int| 0 <= k < text.len() implies #[trigger] text[k] != ':' by {
        assert(is_letter(text[k]) || is_digit(text[k]));
    }
}

/// Two cells with a colon between them name the rectangle from the one to the other.
pub proof fn law_rectangle_named(l0: Seq<char>, d0: Seq<char>, l1: Seq<char>, d1: Seq<char>)
    requires
        all_letters(l0),
        all_digits(d0),
        all_letters(l1),
        all_digits(d1),
    ensures
        target_of(l0 + d0 + ":"@ + (l1 + d1)) == (match (
            column_index(l0),
            u32_of(d0),
            column_index(l1),
            u32_of(d1),
        ) {
            (Some(c0), Some(r0), Some(c1), Some(r1)) => Some(
                Ok::<TargetView, ErrorView>(
                    TargetView::Rect { c0: c0 as u32, r0, c1: c1 as u32, r1 },
                ),
            ),
            _ => None,
        }),
{
    law_cell_name(l0, d0, l0);
    law_cell_name(l1, d1, l1);
    crate::laws::shapes::lemma_cell_name_chars(l0 + d0);
    lemma_no_colon(l0 + d0);
    lemma_around_colon(l0 + d0, l1 + d1);
}

/// The name of a cell names that cell; letters with a colon behind them name their column, and digits
/// with a colon behind them their row.
pub proof fn law_target_named(letters: Seq<char>, digits: Seq<char>)
    requires
        all_letters(letters),
        all_digits(digits),
    ensures
        target_of(letters + digits) == Some(
            Ok::<TargetView, ErrorView>(TargetView::Cell(letters + digits)),
        ),
        target_of(letters + ":"@) == (match column_index(letters) {
            Some(column) => Some(Ok::<TargetView, ErrorView>(TargetView::Col(column as u32))),
            None => None,
        }),
        target_of(digits + ":"@) == (match u32_of(digits) {
            Some(row) => Some(Ok::<TargetView, ErrorView>(TargetView::Row(row))),
            None => Some(Err::<TargetView, ErrorView>(ErrorView::Parse)),
        }),
        before_colon(letters + ":"@) == letters,
{
    law_cell_name(letters, digits, letters);
    let none = Seq::<char>::empty();
    assert forall|i: int| 0 <= i < letters.len() implies is_letter(#[trigger] letters[i]) || is_digit(
        letters[i],
    ) by {}
    assert forall|i: int| 0 <= i < digits.len() implies is_letter(#[trigger] digits[i]) || is_digit(
        digits[i],
    ) by {}
    lemma_no_colon(letters);
    lemma_no_colon(digits);
    lemma_around_colon(letters, none);
    lemma_around_colon(digits, none);
    assert(letters + ":"@ + none =~= letters + ":"@);
    assert(digits + ":"@ + none =~= digits + ":"@);
    assert(is_digit(digits[0]));
    assert(!is_letter(digits[0]));
    assert(!is_cell_name(none));
}

/// A text that is no cell, no two cells with a colon between them, and no letters or digits with a
/// colon behind them is refused.
pub proof fn law_target_refused(text: Seq<char>)
    ensures
        target_of(text) == Some(Err::<TargetView, ErrorView>(ErrorView::InvalidRange(text))) || ({
            ||| is_cell_name(text)
            ||| exists|a: Seq<char>, b: Seq<char>|
                #![trigger is_cell_name(a), is_cell_name(b)]
                is_cell_name(a) && is_cell_name(b) && text == a + ":"@ + b
            ||| exists|a: Seq<char>|
                (#[trigger] all_letters(a) || all_digits(a)) && text == a + ":"@
        }),
{
    reveal_strlit(":");
    let n = colon_from(text, 0);
    lemma_colon_bounds(text, 0);
    if n < text.len() {
        let a = before_colon(text);
        let b = after_colon(text);
        assert(text =~= a + ":"@ + b);
        if n == text.len() - 1 {
            assert(text =~= a + ":"@);
            assert(all_letters(a) || !all_letters(a));
        }
    }
}

/// The first colon is found in the text or at its end.
proof fn lemma_colon_bounds(text: Seq<char>, i: int)
    requires
        0 <= i <= text.len(),
    ensures
        i <= colon_from(text, i) <= text.len(),
        colon_from(text, i) < text.len() ==> text[colon_from(text, i)] == ':',
    decreases text.len() - i,
{
    if i < text.len() && text[i] != ':' {
        lemma_colon_bounds(text, i + 1);
    }
}

} // verus!
