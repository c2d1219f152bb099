//! Column letters and column numbers.

use vstd::prelude::*;
use crate::coord::{
    cell_name, cell_position, column_index, column_letters, column_value, is_column_bytes,
    lemma_column_letters, lemma_column_value, upper_byte,
};
use crate::text::{
    all_letters, decimal, digit_start, is_digit, is_letter, lemma_decimal_digits,
    lemma_decimal_reads_back, lemma_utf8_ascii, u32_of, upper, uppercase, utf8,
};

verus! {

/// The UTF-8 form of ASCII letters has one byte for each, and names a column.
pub proof fn lemma_letter_bytes(text: Seq<char>)
    requires
        all_letters(text),
    ensures
        utf8(text).len() == text.len(),
        forall|i: int| 0 <= i < text.len() ==> #[trigger] utf8(text)[i] == text[i] as u8,
        is_column_bytes(utf8(text)),
{
    assert(vstd::utf8::is_ascii_chars(text)) by {
        assert forall|i: int| 0 <= i < text.len() implies '\0' <= #[trigger] text[i] <= '\u{7f}' by {
            assert(is_letter(text[i]));
        }
    }
    lemma_utf8_ascii(text);
    assert forall|i: int| 0 <= i < utf8(text).len() implies upper_byte(#[trigger] utf8(text)[i])
        >= 65 by {
        assert(is_letter(text[i]));
    }
}

/// The first letters of a text, and its last letter.
proof fn lemma_letters_split(text: Seq<char>)
    requires
        all_letters(text),
        text.len() > 1,
    ensures
        all_letters(text.drop_last()),
        utf8(text).drop_last() == utf8(text.drop_last()),
{
    assert(all_letters(text.drop_last())) by {
        assert forall|i: int| 0 <= i < text.drop_last().len() implies is_letter(
            #[trigger] text.drop_last()[i],
        ) by {
            assert(is_letter(text[i]));
        }
    }
    lemma_letter_bytes(text);
    lemma_letter_bytes(text.drop_last());
    assert(utf8(text).drop_last() =~= utf8(text.drop_last()));
}

/// The letters of a column are letters.
pub proof fn lemma_letters_are_letters(n: nat)
    ensures
        all_letters(column_letters(n)),
{
    lemma_column_letters(n);
    assert forall|i: int| 0 <= i < column_letters(n).len() implies is_letter(
        #[trigger] column_letters(n)[i],
    ) by {
        assert('A' <= column_letters(n)[i] <= 'Z');
    }
}

/// The letters of a column stand for its number, counted from one.
pub proof fn lemma_column_letters_value(n: nat)
    ensures
        column_value(utf8(column_letters(n))) == n + 1,
    decreases n,
{
    reveal_with_fuel(column_value, 2);
    let letters = column_letters(n);
    lemma_letters_are_letters(n);
    lemma_letter_bytes(letters);
    if n < 26 {
        assert(utf8(letters).drop_last() =~= Seq::<u8>::empty());
    } else {
        let before = (n / 26 - 1) as nat;
        lemma_column_letters_value(before);
        lemma_letters_are_letters(before);
        assert(letters.drop_last() =~= column_letters(before));
        lemma_letters_split(letters);
    }
}

/// The index of a column, written in letters and read back, is the same.
pub proof fn law_column_round_trip(n: nat)
    requires
        n < usize::MAX,
    ensures
        column_index(column_letters(n)) == Some(n as usize),
{
    lemma_column_letters_value(n);
    lemma_letters_are_letters(n);
    lemma_letter_bytes(column_letters(n));
}

/// The letters that stand for a number are those of its column, in capitals.
proof fn lemma_letters_of_value(text: Seq<char>)
    requires
        all_letters(text),
    ensures
        column_value(utf8(text)) >= 1,
        uppercase(text) == column_letters((column_value(utf8(text)) - 1) as nat),
    decreases text.len(),
{
    reveal_with_fuel(column_value, 2);
    lemma_letter_bytes(text);
    lemma_column_value(utf8(text));
    let value = column_value(utf8(text));
    let last = text.last();
    assert(is_letter(last));
    let d = upper_byte(utf8(text).last()) - 64;
    assert(1 <= d <= 26);
    assert(upper(last) == (64 + d) as u8 as char);
    if text.len() == 1 {
        assert(utf8(text).drop_last() =~= Seq::<u8>::empty());
        assert(uppercase(text) =~= column_letters((value - 1) as nat));
    } else {
        let front = text.drop_last();
        lemma_letters_split(text);
        lemma_letters_of_value(front);
        let before = column_value(utf8(front));
        assert(value == before * 26 + d);
        let n = (value - 1) as nat;
        assert(n / 26 == before && n % 26 == d - 1) by (nonlinear_arith)
            requires
                n == before * 26 + d - 1,
                1 <= d <= 26,
        ;
        assert(uppercase(text) =~= uppercase(front).push(upper(last)));
        assert(column_letters(n) == column_letters((before - 1) as nat).push((65 + (d - 1)) as u8 as char));
    }
}

/// A column, read from its letters and written back, has the same letters in capitals.
pub proof fn law_letters_round_trip(text: Seq<char>)
    requires
        all_letters(text),
        column_index(text) is Some,
    ensures
        column_letters(column_index(text)->0 as nat) == uppercase(text),
{
    lemma_letters_of_value(text);
}

/// The first digit of letters with digits behind them is the first of the digits.
proof fn lemma_digit_start(letters: Seq<char>, digits: Seq<char>, i: int)
    requires
        0 <= i <= letters.len(),
        digits.len() > 0,
        is_digit(digits[0]),
        forall|k: int| 0 <= k < letters.len() ==> is_letter(#[trigger] letters[k]),
    ensures
        digit_start(letters + digits, i) == letters.len(),
    decreases letters.len() - i,
{
    let text = letters + digits;
    if i < letters.len() {
        assert(text[i] == letters[i]);
        assert(is_letter(letters[i]));
        lemma_digit_start(letters, digits, i + 1);
    } else {
        assert(text[i] == digits[0]);
    }
}

/// The name of a cell is letters, up to its first digit, and the digits of its row.
pub proof fn lemma_cell_name_parts(column: nat, row: u32)
    ensures
        ({
            let name = cell_name(column, row as nat);
            let start = digit_start(name, 0);
            &&& start < name.len()
            &&& name.take(start) == column_letters(column)
            &&& name.skip(start) == decimal(row as nat)
            &&& u32_of(name.skip(start)) == Some(row)
            &&& all_letters(column_letters(column))
        }),
{
    let letters = column_letters(column);
    let digits = decimal(row as nat);
    lemma_letters_are_letters(column);
    lemma_decimal_digits(row as nat);
    lemma_decimal_reads_back(row as nat);
    assert(is_digit(digits[0]));
    lemma_digit_start(letters, digits, 0);
    let name = cell_name(column, row as nat);
    assert(name.take(letters.len() as int) =~= letters);
    assert(name.skip(letters.len() as int) =~= digits);
}

/// The name of a cell, taken apart, gives its column and its row.
pub proof fn law_cell_name_round_trip(column: u32, row: u32)
    requires
        column < usize::MAX,
    ensures
        cell_position(cell_name(column as nat, row as nat)) == Some((column, row)),
{
    lemma_cell_name_parts(column as nat, row);
    law_column_round_trip(column as nat);
}

} // verus!
