//! How far columns reach, and what a data frame is written as.

use vstd::prelude::*;
use crate::coord::{column_index, column_letters};
use crate::frame::unquoted;
use crate::laws::columns::{law_column_round_trip, law_letters_round_trip};
use crate::query::{cell_ref, column_list, column_part, last_row_at, last_row_in, row_part};
use crate::text::{all_letters, digit_start, lemma_split_not_empty, upper, uppercase};
use crate::xml::TagView;

verus! {

/// The last row of some columns is the largest row of a cell in one of them: no cell of theirs has a
/// larger one.
pub proof fn law_last_row_is_an_upper_bound(
    cells: Seq<TagView>,
    columns: Seq<Seq<char>>,
    i: int,
)
    requires
        0 <= i < cells.len(),
    ensures
        cell_ref(cells[i]) matches Some(coord) ==> (columns.contains(column_part(coord))
            ==> row_part(coord) <= last_row_in(cells, columns)),
    decreases cells.len(),
{
    if i < cells.len() - 1 {
        law_last_row_is_an_upper_bound(cells.drop_last(), columns, i);
        assert(cells.drop_last()[i] == cells[i]);
    }
}

/// The last row of some columns is zero or the row of a cell in one of them.
pub proof fn law_last_row_is_reached(cells: Seq<TagView>, columns: Seq<Seq<char>>)
    ensures
        last_row_in(cells, columns) == 0 || exists|i: int|
            0 <= i < cells.len() && (cell_ref(#[trigger] cells[i]) matches Some(coord)
                && columns.contains(column_part(coord)) && row_part(coord) == last_row_in(
                cells,
                columns,
            )),
    decreases cells.len(),
{
    if cells.len() > 0 {
        let front = cells.drop_last();
        law_last_row_is_reached(front, columns);
        let last = cells.len() - 1;
        if last_row_in(cells, columns) == last_row_in(front, columns) {
            if last_row_in(front, columns) != 0 {
                let i = choose|i: int|
                    0 <= i < front.len() && (cell_ref(#[trigger] front[i]) matches Some(coord)
                        && columns.contains(column_part(coord)) && row_part(coord) == last_row_in(
                        front,
                        columns,
                    ));
                assert(cells[i] == front[i]);
            }
        } else {
            assert(cells[last] == cells.last());
        }
    }
}

/// Text in capitals stays as it is.
proof fn lemma_capitals(text: Seq<char>)
    ensures
        uppercase(uppercase(text)) == uppercase(text),
{
    assert forall|i: int| 0 <= i < text.len() implies upper(upper(text[i])) == upper(text[i]) by {
    }
    assert(uppercase(uppercase(text)) =~= uppercase(text));
}

/// Letters name the column with index `column` if they are its letters.
proof fn lemma_column_named(text: Seq<char>, column: usize)
    requires
        all_letters(text),
        uppercase(text) == text,
        column < usize::MAX,
    ensures
        column_index(text) == Some(column) <==> text == column_letters(column as nat),
{
    law_column_round_trip(column as nat);
    if column_index(text) == Some(column) {
        law_letters_round_trip(text);
    }
}

/// The last row of a column is the same whether it is asked for by its letters or as one of a range,
/// where the name of every cell starts with letters.
pub proof fn law_last_rows_agree(cells: Seq<TagView>, column: usize)
    requires
        column < usize::MAX,
        forall|i: int|
            0 <= i < cells.len() ==> (cell_ref(#[trigger] cells[i]) matches Some(coord)
                ==> all_letters(column_part(coord))),
    ensures
        last_row_at(cells, column as int) == last_row_in(
            cells,
            seq![column_letters(column as nat)],
        ),
    decreases cells.len(),
{
    let columns = seq![column_letters(column as nat)];
    if cells.len() > 0 {
        let front = cells.drop_last();
        assert forall|i: int| 0 <= i < front.len() implies (
        cell_ref(#[trigger] front[i]) matches Some(coord) ==> all_letters(column_part(coord))) by {
            assert(front[i] == cells[i]);
        }
        law_last_rows_agree(front, column);
        assert(cells[cells.len() - 1] == cells.last());
        if let Some(coord) = cell_ref(cells.last()) {
            let part = column_part(coord);
            lemma_capitals(coord.take(digit_start(coord, 0)));
            lemma_column_named(part, column);
            assert(columns.contains(part) <==> part == column_letters(column as nat)) by {
                assert(columns[0] == column_letters(column as nat));
            }
        }
    }
}

/// A list of columns names one at least, so none is refused for naming none.
pub proof fn law_some_column_is_listed(text: Seq<char>)
    ensures
        column_list(text).len() > 0,
{
    lemma_split_not_empty(text, ',');
}

/// A string without double quotes is written as it is, though a data frame shows it in quotes.
pub proof fn law_string_cell(string: Seq<char>)
    requires
        forall|i: int| 0 <= i < string.len() ==> #[trigger] string[i] != '"',
    ensures
        unquoted("\""@ + string + "\""@) == string,
{
    reveal_strlit("\"");
    let shown = "\""@ + string + "\""@;
    assert(shown.last() == '"');
    assert(shown.drop_last() =~= "\""@ + string);
    lemma_front_quote(string);
}

/// A text without double quotes but the one in front of it.
proof fn lemma_front_quote(string: Seq<char>)
    requires
        forall|i: int| 0 <= i < string.len() ==> #[trigger] string[i] != '"',
    ensures
        unquoted("\""@ + string) == string,
    decreases string.len(),
{
    reveal_strlit("\"");
    reveal_with_fuel(unquoted, 2);
    let shown = "\""@ + string;
    if string.len() == 0 {
        assert(shown.drop_last() =~= Seq::empty());
        assert(shown.last() == '"');
        assert(unquoted(shown) =~= string);
    } else {
        let front = string.drop_last();
        assert forall|i: int| 0 <= i < front.len() implies #[trigger] front[i] != '"' by {
            assert(front[i] == string[i]);
        }
        lemma_front_quote(front);
        assert(shown.drop_last() =~= "\""@ + front);
        assert(shown.last() == string[string.len() - 1]);
        assert(unquoted(shown) =~= string);
    }
}

/// What a cell of a data frame is written as holds no double quotes.
pub proof fn law_unquoted(text: Seq<char>)
    ensures
        forall|i: int| 0 <= i < unquoted(text).len() ==> #[trigger] unquoted(text)[i] != '"',
    decreases text.len(),
{
    if text.len() > 0 {
        law_unquoted(text.drop_last());
        let front = unquoted(text.drop_last());
        assert forall|i: int| 0 <= i < unquoted(text).len() implies #[trigger] unquoted(text)[i]
            != '"' by {
            if i < front.len() {
                assert(unquoted(text)[i] == front[i]);
            }
        }
    }
}

} // verus!
