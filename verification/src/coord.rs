//! Coordinates: column letters, cell names and ranges.

use vstd::prelude::*;
use vstd::string::*;
use crate::error::{ErrorView, XlsxError};
use crate::pattern::{range_captures, CELL_PATTERN, COL_PATTERN, RECT_PATTERN, ROW_PATTERN};
use crate::text::{
    all_digits, all_letters, ascii_chars, ascii_text, chars_of, digit_start, digit_start_of,
    parse_u32, u32_of, utf8,
};

verus! {

/// Letters, then digits.
pub open spec fn is_cell_name(text: Seq<char>) -> bool {
    let row = digit_start(text, 0);
    all_letters(text.take(row)) && all_digits(text.skip(row))
}

/// The first position of a colon at or after `i`, or the end of the text.
pub open spec fn colon_from(text: Seq<char>, i: int) -> int
    decreases text.len() - i,
{
    if 0 <= i < text.len() && text[i] != ':' {
        colon_from(text, i + 1)
    } else {
        i
    }
}

/// The text up to the first colon.
pub open spec fn before_colon(text: Seq<char>) -> Seq<char> {
    text.take(colon_from(text, 0))
}

/// The text behind the first colon.
pub open spec fn after_colon(text: Seq<char>) -> Seq<char> {
    text.skip(colon_from(text, 0) + 1)
}

/// Two cell names with a colon between them.
pub open spec fn is_rect_range(text: Seq<char>) -> bool {
    &&& colon_from(text, 0) < text.len()
    &&& is_cell_name(before_colon(text))
    &&& is_cell_name(after_colon(text))
}

/// Letters with a colon behind them.
pub open spec fn is_col_range(text: Seq<char>) -> bool {
    colon_from(text, 0) == text.len() - 1 && all_letters(before_colon(text))
}

/// Digits with a colon behind them.
pub open spec fn is_row_range(text: Seq<char>) -> bool {
    colon_from(text, 0) == text.len() - 1 && all_digits(before_colon(text))
}

// ---- column letters -----------------------------------------------------------------------

/// The letters of the column with index `n`: `A` to `Z`, then `AA`, `AB` and so on.
pub open spec fn column_letters(n: nat) -> Seq<char>
    decreases n,
{
    if n < 26 {
        seq![(65 + n) as u8 as char]
    } else {
        column_letters((n / 26 - 1) as nat).push((65 + n % 26) as u8 as char)
    }
}

/// A byte with an ASCII small letter turned into the capital one.
pub open spec fn upper_byte(b: u8) -> int {
    if 97 <= b <= 122 {
        b - 32
    } else {
        b as int
    }
}

/// The number that letters stand for, where `A` is one, `Z` is twenty-six and `AA` follows `Z`.
pub open spec fn column_value(letters: Seq<u8>) -> int
    decreases letters.len(),
{
    if letters.len() == 0 {
        0
    } else {
        column_value(letters.drop_last()) * 26 + (upper_byte(letters.last()) - 64)
    }
}

/// No byte comes before the capital letters.
pub open spec fn is_column_bytes(letters: Seq<u8>) -> bool {
    forall|i: int| 0 <= i < letters.len() ==> upper_byte(#[trigger] letters[i]) >= 65
}

/// The index of the column that `bytes` name, where there is one and a `usize` can hold it.
pub open spec fn column_index_of_bytes(bytes: Seq<u8>) -> Option<usize> {
    if bytes.len() > 0 && is_column_bytes(bytes) && column_value(bytes) <= usize::MAX {
        Some((column_value(bytes) - 1) as usize)
    } else {
        None
    }
}

/// The index of the column that `text` names, where there is one and a `usize` can hold it.
pub open spec fn column_index(text: Seq<char>) -> Option<usize> {
    column_index_of_bytes(utf8(text))
}

/// Letters stand for one at least, and for no less than those in front of the last.
pub proof fn lemma_column_value(letters: Seq<u8>)
    requires
        is_column_bytes(letters),
    ensures
        column_value(letters) >= letters.len(),
        letters.len() > 0 ==> column_value(letters) > column_value(letters.drop_last()),
    decreases letters.len(),
{
    if letters.len() > 0 {
        assert(is_column_bytes(letters.drop_last())) by {
            assert forall|i: int| 0 <= i < letters.drop_last().len() implies upper_byte(
                #[trigger] letters.drop_last()[i],
            ) >= 65 by {
                assert(letters.drop_last()[i] == letters[i]);
            }
        }
        lemma_column_value(letters.drop_last());
        assert(upper_byte(letters[letters.len() - 1]) >= 65);
    }
}

/// Letters stand for no less than the first `k` of them.
proof fn lemma_column_value_prefix(letters: Seq<u8>, k: int)
    requires
        is_column_bytes(letters),
        0 <= k <= letters.len(),
    ensures
        column_value(letters.subrange(0, k)) <= column_value(letters),
    decreases letters.len(),
{
    if k == letters.len() {
        assert(letters.subrange(0, k) =~= letters);
    } else {
        lemma_column_value(letters);
        let shorter = letters.drop_last();
        assert(is_column_bytes(shorter)) by {
            assert forall|i: int| 0 <= i < shorter.len() implies upper_byte(#[trigger] shorter[i])
                >= 65 by {
                assert(shorter[i] == letters[i]);
            }
        }
        lemma_column_value_prefix(shorter, k);
        assert(shorter.subrange(0, k) =~= letters.subrange(0, k));
    }
}

/// The letters of a column are ASCII capitals.
pub proof fn lemma_column_letters(n: nat)
    ensures
        column_letters(n).len() > 0,
        forall|i: int| 0 <= i < column_letters(n).len() ==> 'A' <= #[trigger] column_letters(n)[i] <= 'Z',
    decreases n,
{
    if n >= 26 {
        lemma_column_letters((n / 26 - 1) as nat);
        let letters = column_letters(n);
        assert forall|i: int| 0 <= i < letters.len() implies 'A' <= #[trigger] letters[i] <= 'Z' by {
            if i < letters.len() - 1 {
                assert(letters[i] == column_letters((n / 26 - 1) as nat)[i]);
            }
        }
    }
}

/// The ASCII letters of the column with index `n`.
fn column_letter_bytes(n: usize) -> (letters: Vec<u8>)
    ensures
        ascii_chars(letters@) == column_letters(n as nat),
        forall|i: int| 0 <= i < letters@.len() ==> #[trigger] letters@[i] < 128,
    decreases n,
{
    let mut letters: Vec<u8> = Vec::new();
    if n >= 26 {
        letters = column_letter_bytes(n / 26 - 1);
    }
    let ghost before = letters@;
    let last: u8 = 65 + (n % 26) as u8;
    letters.push(last);
    assert(ascii_chars(letters@) =~= ascii_chars(before).push(last as char));
    assert(ascii_chars(letters@) =~= column_letters(n as nat));
    letters
}

/// The letters of the column with index `n`, as far as a `usize` goes.
pub fn col_idx_to_letters(n: usize) -> (letters: String)
    ensures
        letters@ == column_letters(n as nat),
{
    let bytes = column_letter_bytes(n);
    ascii_text(bytes.as_slice())
}

/// The letters of the column with index `n`.
pub fn col_letter(n: u32) -> (letters: String)
    ensures
        letters@ == column_letters(n as nat),
{
    col_idx_to_letters(n as usize)
}

/// The index of the column that `bytes` name, or `None` where they name none.
pub fn try_col_index_of_bytes(bytes: &[u8]) -> (index: Option<usize>)
    ensures
        index == column_index_of_bytes(bytes@),
        index matches Some(i) ==> i < usize::MAX,
{
    let mut value: usize = 0;
    let mut i: usize = 0;
    assert(bytes@.subrange(0, 0) =~= Seq::<u8>::empty());
    while i < bytes.len()
        invariant
            i <= bytes@.len(),
            value == column_value(bytes@.subrange(0, i as int)),
            is_column_bytes(bytes@.subrange(0, i as int)),
        decreases bytes@.len() - i,
    {
        let b: u8 = bytes[i];
        let capital: u8 = if 97 <= b && b <= 122 {
            b - 32
        } else {
            b
        };
        let ghost next = bytes@.subrange(0, i + 1);
        assert(next.drop_last() =~= bytes@.subrange(0, i as int));
        if capital < 65 {
            assert(upper_byte(bytes@[i as int]) < 65);
            return None;
        }
        assert(is_column_bytes(next)) by {
            assert forall|k: int| 0 <= k < next.len() implies upper_byte(#[trigger] next[k])
                >= 65 by {
                if k < i {
                    assert(next[k] == bytes@.subrange(0, i as int)[k]);
                }
            }
        }
        assert(column_value(next) == column_value(bytes@.subrange(0, i as int)) * 26 + (capital - 64));
        let shifted = match value.checked_mul(26) {
            Some(v) => v,
            None => {
                proof {
                    if is_column_bytes(bytes@) {
                        lemma_column_value_prefix(bytes@, i + 1);
                    }
                }
                return None;
            },
        };
        match shifted.checked_add((capital - 64) as usize) {
            Some(v) => {
                value = v;
            },
            None => {
                proof {
                    if is_column_bytes(bytes@) {
                        lemma_column_value_prefix(bytes@, i + 1);
                    }
                }
                return None;
            },
        }
        i += 1;
    }
    assert(bytes@.subrange(0, bytes@.len() as int) =~= bytes@);
    proof {
        lemma_column_value(bytes@);
    }
    if value == 0 {
        None
    } else {
        Some(value - 1)
    }
}

/// The index of the column that `text` names.
pub fn col_index(text: &str) -> (index: usize)
    requires
        column_index(text@) is Some,
    ensures
        column_index(text@) == Some(index),
{
    try_col_index_of_bytes(text.as_bytes()).unwrap()
}

// ---- cells and ranges ---------------------------------------------------------------------

/// The column and the row that a cell name stands for, where a `usize` and a `u32` can hold them.
/// Of the column's index the lowest 32 bits count.
pub open spec fn cell_position(text: Seq<char>) -> Option<(u32, u32)> {
    let row = digit_start(text, 0);
    match (column_index(text.take(row)), u32_of(text.skip(row))) {
        (Some(c), Some(r)) => Some((c as u32, r)),
        _ => None,
    }
}

/// The part of a sheet that a range names.
pub enum Target {
    Cell(String),
    Rect { c0: u32, r0: u32, c1: u32, r1: u32 },
    Col(u32),
    Row(u32),
}

/// The view of a target.
pub enum TargetView {
    Cell(Seq<char>),
    Rect { c0: u32, r0: u32, c1: u32, r1: u32 },
    Col(u32),
    Row(u32),
}

impl View for Target {
    type V = TargetView;

    open spec fn view(&self) -> TargetView {
        match *self {
            Target::Cell(name) => TargetView::Cell(name@),
            Target::Rect { c0, r0, c1, r1 } => TargetView::Rect { c0, r0, c1, r1 },
            Target::Col(c) => TargetView::Col(c),
            Target::Row(r) => TargetView::Row(r),
        }
    }
}

/// What the range `text` names, or the error that it is refused with. `None` stands for a
/// rectangle or a column whose numbers are too large to be held.
pub open spec fn target_of(text: Seq<char>) -> Option<Result<TargetView, ErrorView>> {
    if is_cell_name(text) {
        Some(Ok(TargetView::Cell(text)))
    } else if is_rect_range(text) {
        match (cell_position(before_colon(text)), cell_position(after_colon(text))) {
            (Some((c0, r0)), Some((c1, r1))) => Some(Ok(TargetView::Rect { c0, r0, c1, r1 })),
            _ => None,
        }
    } else if is_col_range(text) {
        match column_index(before_colon(text)) {
            Some(c) => Some(Ok(TargetView::Col(c as u32))),
            None => None,
        }
    } else if is_row_range(text) {
        match u32_of(before_colon(text)) {
            Some(r) => Some(Ok(TargetView::Row(r))),
            None => Some(Err(ErrorView::Parse)),
        }
    } else {
        Some(Err(ErrorView::InvalidRange(text)))
    }
}

/// The view of a target that was asked for.
pub open spec fn target_view(target: Result<Target, XlsxError>) -> Result<TargetView, ErrorView> {
    match target {
        Ok(t) => Ok(t@),
        Err(e) => Err(e@),
    }
}

/// The column and the row of a cell name, or `None` where a number is too large.
pub fn try_split_coord(coord: &str) -> (position: Option<(u32, u32)>)
    ensures
        position == cell_position(coord@),
{
    let chars = chars_of(coord);
    let p: usize = digit_start_of(chars.as_slice());
    let column = coord.substring_char(0, p);
    let row = coord.substring_char(p, chars.len());
    assert(column@ =~= coord@.take(p as int));
    assert(row@ =~= coord@.skip(p as int));
    match (try_col_index_of_bytes(column.as_bytes()), parse_u32(row)) {
        (Some(c), Ok(r)) => Some((c as u32, r)),
        _ => None,
    }
}

/// The column and the row of a cell name.
pub fn split_coord(coord: &str) -> (position: (u32, u32))
    requires
        cell_position(coord@) is Some,
    ensures
        cell_position(coord@) == Some(position),
{
    try_split_coord(coord).unwrap()
}

/// What the range `s` names, or `None` where it is a rectangle or a column with too large a number.
pub fn try_parse_target(s: &str) -> (target: Option<Result<Target, XlsxError>>)
    ensures
        match target {
            Some(t) => target_of(s@) == Some(target_view(t)),
            None => target_of(s@) is None,
        },
{
    if range_captures(CELL_PATTERN, s).is_some() {
        return Some(Ok(Target::Cell(s.to_owned())));
    }
    if let Some(groups) = range_captures(RECT_PATTERN, s) {
        return match (
            try_split_coord(groups[1].as_str()),
            try_split_coord(groups[2].as_str()),
        ) {
            (Some((c0, r0)), Some((c1, r1))) => Some(Ok(Target::Rect { c0, r0, c1, r1 })),
            _ => None,
        };
    }
    if let Some(groups) = range_captures(COL_PATTERN, s) {
        return match try_col_index_of_bytes(groups[1].as_str().as_bytes()) {
            Some(c) => Some(Ok(Target::Col(c as u32))),
            None => None,
        };
    }
    if let Some(groups) = range_captures(ROW_PATTERN, s) {
        return match parse_u32(groups[1].as_str()) {
            Ok(r) => Some(Ok(Target::Row(r))),
            Err(e) => Some(Err(XlsxError::Parse(e))),
        };
    }
    Some(Err(XlsxError::InvalidRange { range: s.to_owned() }))
}

/// What the range `s` names: a cell, a rectangle, a column or a row.
pub fn parse_target(s: &str) -> (target: Result<Target, XlsxError>)
    requires
        target_of(s@) is Some,
    ensures
        target_of(s@) == Some(target_view(target)),
{
    try_parse_target(s).unwrap()
}

/// The text up to the first colon.
pub fn text_before_colon(text: &str) -> (before: String)
    ensures
        before@ == before_colon(text@),
{
    let chars = chars_of(text);
    let mut i: usize = 0;
    while i < chars.len() && chars[i] != ':'
        invariant
            i <= chars@.len(),
            chars@ == text@,
            colon_from(text@, 0) == colon_from(text@, i as int),
        decreases chars@.len() - i,
    {
        i += 1;
    }
    let before = text.substring_char(0, i);
    assert(before@ =~= before_colon(text@));
    before.to_owned()
}

/// The name of the cell in column `column` and row `row`.
pub open spec fn cell_name(column: nat, row: nat) -> Seq<char> {
    column_letters(column) + crate::text::decimal(row)
}

/// The name of the cell in column `column` and row `row`.
pub fn cell_name_text(column: usize, row: u32) -> (name: String)
    ensures
        name@ == cell_name(column as nat, row as nat),
{
    let mut name = col_idx_to_letters(column);
    name.append(crate::text::decimal_text(row as u64).as_str());
    name
}

} // verus!
