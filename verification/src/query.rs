//! How far the columns of a worksheet reach.

use vstd::prelude::*;
use vstd::string::*;
use crate::coord::{column_index, try_col_index_of_bytes};
use crate::error::{ErrorView, XlsxError};
use crate::sheet::coord_row;
use crate::text::{
    chars_of, chars_views, copy_chars, digit_start, digit_start_of, parse_u32, same_chars, split,
    split_chars, text_from, trim, trim_chars, uppercase, uppercase_chars,
};
use crate::xml::{attribute_text, tag_views, text_of_attribute, Tag, TagView};

verus! {

/// The column of a cell name, in capitals.
pub open spec fn column_part(coord: Seq<char>) -> Seq<char> {
    uppercase(coord.take(digit_start(coord, 0)))
}

/// The row of a cell name, and zero where it has none.
pub open spec fn row_part(coord: Seq<char>) -> u32 {
    match coord_row(coord) {
        Some(row) => row,
        None => 0,
    }
}

/// The name of the cell that a tag stands for.
pub open spec fn cell_ref(tag: TagView) -> Option<Seq<char>> {
    attribute_text(tag, "r"@)
}

/// The columns that a list with commas names, in capitals.
pub open spec fn column_list(text: Seq<char>) -> Seq<Seq<char>> {
    Seq::new(split(text, ',').len(), |i: int| uppercase(trim(split(text, ',')[i])))
}

/// The largest row of a cell in one of `columns`, and zero where there is no such cell.
pub open spec fn last_row_in(cells: Seq<TagView>, columns: Seq<Seq<char>>) -> u32
    decreases cells.len(),
{
    if cells.len() == 0 {
        0
    } else {
        let before = last_row_in(cells.drop_last(), columns);
        match cell_ref(cells.last()) {
            Some(coord) => if columns.contains(column_part(coord)) && row_part(coord) > before {
                row_part(coord)
            } else {
                before
            },
            None => before,
        }
    }
}

/// The largest row of a cell in the column with index `column`, and zero where there is none.
pub open spec fn last_row_at(cells: Seq<TagView>, column: int) -> u32
    decreases cells.len(),
{
    if cells.len() == 0 {
        0
    } else {
        let before = last_row_at(cells.drop_last(), column);
        match cell_ref(cells.last()) {
            Some(coord) => match column_index(column_part(coord)) {
                Some(c) => if c == column && row_part(coord) > before {
                    row_part(coord)
                } else {
                    before
                },
                None => before,
            },
            None => before,
        }
    }
}

/// A cell that has a name stands in a column.
pub open spec fn in_a_column(cell: TagView) -> bool {
    cell_ref(cell) matches Some(coord) ==> column_index(column_part(coord)) is Some
}

/// The last rows of the columns in the range `text`, from left to right. `None` stands for a range
/// or a cell without a column.
pub open spec fn last_rows_in(cells: Seq<TagView>, text: Seq<char>) -> Option<
    Result<Seq<u32>, ErrorView>,
> {
    let ends = split(text, ':');
    if ends.len() != 2 {
        Some(Err(ErrorView::InvalidRange(text)))
    } else {
        match (column_index(uppercase(trim(ends[0]))), column_index(uppercase(trim(ends[1])))) {
            (Some(first), Some(last)) => if first > last {
                Some(Err(ErrorView::InvalidRangeOrder))
            } else if forall|i: int| 0 <= i < cells.len() ==> in_a_column(#[trigger] cells[i]) {
                Some(
                    Ok(
                        Seq::new(
                            (last - first + 1) as nat,
                            |i: int| last_row_at(cells, first + i),
                        ),
                    ),
                )
            } else {
                None
            },
            _ => None,
        }
    }
}

/// A cell name in two parts: its column in capitals, and its row or zero.
fn cell_parts(coord: &str) -> (parts: (Vec<char>, u32))
    ensures
        parts.0@ == column_part(coord@),
        parts.1 == row_part(coord@),
{
    let chars = chars_of(coord);
    let p: usize = digit_start_of(chars.as_slice());
    let column = copy_chars(chars.as_slice(), 0, p);
    assert(column@ =~= coord@.take(p as int));
    let digits = coord.substring_char(p, chars.len());
    assert(digits@ =~= coord@.skip(p as int));
    let row: u32 = match parse_u32(digits) {
        Ok(row) => row,
        Err(_) => 0,
    };
    (uppercase_chars(column.as_slice()), row)
}

/// Whether a text is one of a list.
fn is_listed(list: &[Vec<char>], text: &[char]) -> (listed: bool)
    ensures
        listed == chars_views(list@).contains(text@),
{
    let mut i: usize = 0;
    while i < list.len()
        invariant
            i <= list@.len(),
            forall|j: int| 0 <= j < i ==> list@[j]@ != text@,
        decreases list@.len() - i,
    {
        if same_chars(list[i].as_slice(), text) {
            assert(chars_views(list@)[i as int] == text@);
            return true;
        }
        i += 1;
    }
    assert forall|j: int| 0 <= j < list@.len() implies chars_views(list@)[j] != text@ by {
        assert(list@[j]@ != text@);
    }
    false
}

/// The columns that a list with commas names, in capitals.
fn listed_columns(text: &str) -> (columns: Vec<Vec<char>>)
    ensures
        chars_views(columns@) == column_list(text@),
{
    let chars = chars_of(text);
    let pieces = split_chars(chars.as_slice(), ',');
    let mut columns: Vec<Vec<char>> = Vec::new();
    let mut i: usize = 0;
    while i < pieces.len()
        invariant
            i <= pieces@.len(),
            chars_views(pieces@) == split(text@, ','),
            columns@.len() == i,
            forall|j: int| 0 <= j < i ==> columns@[j]@ == #[trigger] column_list(text@)[j],
        decreases pieces@.len() - i,
    {
        assert(chars_views(pieces@)[i as int] == pieces@[i as int]@);
        let trimmed = trim_chars(pieces[i].as_slice());
        columns.push(uppercase_chars(trimmed.as_slice()));
        i += 1;
    }
    assert(chars_views(pieces@).len() == pieces@.len());
    assert(chars_views(columns@) =~= column_list(text@));
    columns
}

/// The largest row of a cell in one of the columns that `columns` lists with commas.
pub fn last_row_of_columns(cells: &[&Tag], columns: &str) -> (row: u32)
    ensures
        row == last_row_in(tag_views(cells@), column_list(columns@)),
{
    let targets = listed_columns(columns);
    let ghost all = tag_views(cells@);
    let mut last: u32 = 0;
    let mut i: usize = 0;
    while i < cells.len()
        invariant
            i <= cells@.len(),
            all == tag_views(cells@),
            chars_views(targets@) == column_list(columns@),
            last == last_row_in(all.take(i as int), column_list(columns@)),
        decreases cells@.len() - i,
    {
        assert(all.take(i + 1).drop_last() =~= all.take(i as int));
        assert(all.take(i + 1).last() == cells@[i as int]@);
        if let Some(coord) = text_of_attribute(cells[i], "r") {
            let (column, row) = cell_parts(coord.as_str());
            if is_listed(targets.as_slice(), column.as_slice()) {
                if row > last {
                    last = row;
                }
            }
        }
        i += 1;
    }
    assert(all.take(i as int) =~= all);
    last
}

/// The index of the column that one end of a range names.
fn end_column(end: &[char]) -> (column: Option<usize>)
    ensures
        column == column_index(uppercase(trim(end@))),
        column matches Some(c) ==> c < usize::MAX,
{
    let trimmed = trim_chars(end);
    let capital = uppercase_chars(trimmed.as_slice());
    let text = text_from(capital.as_slice());
    try_col_index_of_bytes(text.as_str().as_bytes())
}

/// The last rows of the columns from `first` to `last`, or `None` where a cell has no column.
fn last_rows_between(cells: &[&Tag], first: usize, last: usize) -> (rows: Option<Vec<u32>>)
    requires
        first <= last < usize::MAX,
    ensures
        match rows {
            Some(r) => {
                &&& forall|i: int| 0 <= i < cells@.len() ==> in_a_column(#[trigger] tag_views(cells@)[i])
                &&& r@ == Seq::new(
                    (last - first + 1) as nat,
                    |i: int| last_row_at(tag_views(cells@), first + i),
                )
            },
            None => exists|i: int|
                0 <= i < cells@.len() && !in_a_column(#[trigger] tag_views(cells@)[i]),
        },
{
    let ghost all = tag_views(cells@);
    let width: usize = last - first + 1;
    let mut rows: Vec<u32> = Vec::new();
    while rows.len() < width
        invariant
            rows@.len() <= width,
            forall|i: int| 0 <= i < rows@.len() ==> rows@[i] == 0,
        decreases width - rows@.len(),
    {
        rows.push(0);
    }
    let mut k: usize = 0;
    while k < cells.len()
        invariant
            k <= cells@.len(),
            all == tag_views(cells@),
            first <= last < usize::MAX,
            rows@.len() == width == last - first + 1,
            forall|i: int| 0 <= i < width ==> rows@[i] == #[trigger] last_row_at(all.take(k as int), first + i),
            forall|i: int| 0 <= i < k ==> in_a_column(#[trigger] all[i]),
        decreases cells@.len() - k,
    {
        let ghost next = all.take(k + 1);
        assert(next.drop_last() =~= all.take(k as int));
        assert(next.last() == cells@[k as int]@);
        assert(all[k as int] == cells@[k as int]@);
        let ghost before = rows@;
        if let Some(coord) = text_of_attribute(cells[k], "r") {
            let (letters, row) = cell_parts(coord.as_str());
            let text = text_from(letters.as_slice());
            match try_col_index_of_bytes(text.as_str().as_bytes()) {
                None => {
                    assert(!in_a_column(all[k as int]));
                    return None;
                },
                Some(column) => {
                    if first <= column && column <= last {
                        let at: usize = column - first;
                        if row > rows[at] {
                            rows.set(at, row);
                        }
                    }
                },
            }
        }
        assert forall|i: int| 0 <= i < width implies rows@[i] == #[trigger] last_row_at(next, first + i) by {
            assert(before[i] == last_row_at(all.take(k as int), first + i));
        }
        k += 1;
    }
    assert(all.take(k as int) =~= all);
    assert(rows@ =~= Seq::new((last - first + 1) as nat, |i: int| last_row_at(all, first + i)));
    Some(rows)
}

/// The last rows of the columns in a range, from left to right, or `None` where the range or a cell
/// has no column.
pub fn try_last_rows_of_range(cells: &[&Tag], range: &str) -> (rows: Option<
    Result<Vec<u32>, XlsxError>,
>)
    ensures
        match last_rows_in(tag_views(cells@), range@) {
            None => rows is None,
            Some(Err(e)) => rows matches Some(Err(r)) && r@ == e,
            Some(Ok(list)) => rows matches Some(Ok(r)) && r@ == list,
        },
{
    let chars = chars_of(range);
    let ends = split_chars(chars.as_slice(), ':');
    assert(chars_views(ends@).len() == ends@.len());
    if ends.len() != 2 {
        return Some(Err(XlsxError::InvalidRange { range: range.to_owned() }));
    }
    assert(chars_views(ends@)[0] == ends@[0]@);
    assert(chars_views(ends@)[1] == ends@[1]@);
    let first: usize = match end_column(ends[0].as_slice()) {
        None => {
            return None;
        },
        Some(first) => first,
    };
    let last: usize = match end_column(ends[1].as_slice()) {
        None => {
            return None;
        },
        Some(last) => last,
    };
    if first > last {
        return Some(Err(XlsxError::InvalidRangeOrder));
    }
    match last_rows_between(cells, first, last) {
        None => None,
        Some(rows) => Some(Ok(rows)),
    }
}

} // verus!
