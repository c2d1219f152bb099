//! Data frames as tables of text.

use vstd::prelude::*;
use vstd::string::*;
use crate::text::{chars_of, decimal, table_views, text_from, text_views};

verus! {

/// `polars_core::frame::DataFrame`, a table of named columns.
#[verifier::external_type_specification]
#[verifier::external_body]
pub struct ExDataFrame(polars_core::frame::DataFrame);

/// `polars_core::frame::column::Column`, one column of a data frame.
#[verifier::external_type_specification]
#[verifier::external_body]
pub struct ExColumn(polars_core::frame::column::Column);

/// `polars_core::error::PolarsError`, which some operators of columns give.
#[verifier::external_type_specification]
#[verifier::external_body]
pub struct ExPolarsError(polars_core::error::PolarsError);

/// A cell of a data frame: a string, a truth value, an integer, no value, or a value of another type.
pub enum FrameCell {
    Text(Seq<char>),
    Bool(bool),
    Int(int),
    Null,
    Other,
}

/// The columns of a data frame: the name of each, and its cells.
pub uninterp spec fn frame_columns(df: polars_core::frame::DataFrame) -> Seq<
    (Seq<char>, Seq<FrameCell>),
>;

/// The number of rows of a data frame.
pub uninterp spec fn frame_height(df: polars_core::frame::DataFrame) -> nat;

/// Calls `DataFrame::height`: the number of rows, which is that of the cells of every column.
#[verifier::external_body]
fn height_of(df: &polars_core::frame::DataFrame) -> (height: usize)
    ensures
        height == frame_height(*df),
        forall|c: int|
            0 <= c < frame_columns(*df).len() ==> (#[trigger] frame_columns(*df)[c]).1.len() == height,
{
    df.height()
}

/// Calls `DataFrame::get_columns` and `Column::name`: the names of the columns, in their order.
#[verifier::external_body]
fn names_of_columns(df: &polars_core::frame::DataFrame) -> (names: Vec<String>)
    ensures
        text_views(names@) == column_names(frame_columns(*df)),
{
    df.get_columns().iter().map(|column| column.name().to_string()).collect()
}

/// Calls `Column::get` and `AnyValue::to_string`: a string is shown in double quotes, a truth value as
/// `true` or `false`, no value as `null`, and an integer in decimal, with the separator that is set
/// for the whole process between groups of three digits. How a value of another type is shown is left
/// unsaid, since for floating-point numbers it follows more such settings.
#[verifier::external_body]
fn shown_cell(df: &polars_core::frame::DataFrame, column: usize, row: usize) -> (text: String)
    requires
        column < frame_columns(*df).len(),
    ensures
        shown_as(frame_columns(*df)[column as int].1, row as int, text@),
{
    let value = df.get_columns()[column].get(row);
    value.map(|v| v.to_string()).unwrap_or_default()
}

/// Digits in groups of three from the end, with `separator` between them.
pub open spec fn grouped(digits: Seq<char>, separator: Seq<char>) -> Seq<char>
    decreases digits.len(),
{
    if digits.len() <= 3 {
        digits
    } else {
        grouped(digits.take(digits.len() - 3), separator) + separator + digits.skip(
            digits.len() - 3,
        )
    }
}

/// An integer in decimal, with `separator` between groups of three digits.
pub open spec fn shown_int(n: int, separator: Seq<char>) -> Seq<char> {
    if n < 0 {
        "-"@ + grouped(decimal((-n) as nat), separator)
    } else {
        grouped(decimal(n as nat), separator)
    }
}

/// `text` shows an integer, with at most one character as the separator.
pub open spec fn shows_int(n: int, text: Seq<char>) -> bool {
    exists|separator: Seq<char>|
        separator.len() <= 1 && text == #[trigger] shown_int(n, separator)
}

/// `text` is how the cell in row `row` is shown.
pub open spec fn shown_as(cells: Seq<FrameCell>, row: int, text: Seq<char>) -> bool {
    0 <= row < cells.len() ==> match cells[row] {
        FrameCell::Text(string) => text == "\""@ + string + "\""@,
        FrameCell::Bool(b) => text == (if b {
            "true"@
        } else {
            "false"@
        }),
        FrameCell::Int(n) => shows_int(n, text),
        FrameCell::Null => text == "null"@,
        FrameCell::Other => true,
    }
}

/// The names of columns.
pub open spec fn column_names(columns: Seq<(Seq<char>, Seq<FrameCell>)>) -> Seq<Seq<char>> {
    Seq::new(columns.len(), |c: int| columns[c].0)
}

/// `shown` holds, row by row, the cells of a data frame as they are shown.
pub open spec fn shows(df: polars_core::frame::DataFrame, shown: Seq<Seq<Seq<char>>>) -> bool {
    &&& shown.len() == frame_height(df)
    &&& forall|c: int|
        0 <= c < frame_columns(df).len() ==> (#[trigger] frame_columns(df)[c]).1.len() == shown.len()
    &&& forall|r: int|
        0 <= r < shown.len() ==> row_shown(frame_columns(df), r, #[trigger] shown[r])
}

/// `cells` are the cells of row `r` as they are shown.
pub open spec fn row_shown(
    columns: Seq<(Seq<char>, Seq<FrameCell>)>,
    r: int,
    cells: Seq<Seq<char>>,
) -> bool {
    &&& cells.len() == columns.len()
    &&& forall|c: int| 0 <= c < columns.len() ==> shown_as(columns[c].1, r, #[trigger] cells[c])
}

/// `text` without its double quotes.
pub open spec fn unquoted(text: Seq<char>) -> Seq<char>
    decreases text.len(),
{
    if text.len() == 0 {
        Seq::empty()
    } else if text.last() == '"' {
        unquoted(text.drop_last())
    } else {
        unquoted(text.drop_last()).push(text.last())
    }
}

/// A row of cells without double quotes.
pub open spec fn unquoted_row(cells: Seq<Seq<char>>) -> Seq<Seq<char>> {
    Seq::new(cells.len(), |c: int| unquoted(cells[c]))
}

/// The table with the names of the columns on top, and below them the cells without double quotes.
pub open spec fn headed_table(names: Seq<Seq<char>>, shown: Seq<Seq<Seq<char>>>) -> Seq<
    Seq<Seq<char>>,
> {
    seq![names] + Seq::new(shown.len(), |r: int| unquoted_row(shown[r]))
}

/// `text` without its double quotes.
pub fn without_quotes(text: &str) -> (out: String)
    ensures
        out@ == unquoted(text@),
{
    let chars = chars_of(text);
    let mut out: Vec<char> = Vec::new();
    let mut i: usize = 0;
    while i < chars.len()
        invariant
            i <= chars@.len(),
            out@ == unquoted(chars@.take(i as int)),
        decreases chars@.len() - i,
    {
        assert(chars@.take(i + 1).drop_last() =~= chars@.take(i as int));
        if chars[i] != '"' {
            out.push(chars[i]);
        }
        i += 1;
    }
    assert(chars@.take(i as int) =~= chars@);
    text_from(out.as_slice())
}

/// A row of cells without double quotes.
fn row_without_quotes(cells: &[String]) -> (row: Vec<String>)
    ensures
        text_views(row@) == unquoted_row(text_views(cells@)),
{
    let mut row: Vec<String> = Vec::new();
    let mut i: usize = 0;
    while i < cells.len()
        invariant
            i <= cells@.len(),
            row@.len() == i,
            forall|k: int| 0 <= k < i ==> (#[trigger] row@[k])@ == unquoted(cells@[k]@),
        decreases cells@.len() - i,
    {
        row.push(without_quotes(cells[i].as_str()));
        i += 1;
    }
    assert(text_views(row@) =~= unquoted_row(text_views(cells@)));
    row
}

/// The table with the names of the columns on top, and below them the cells without double quotes.
pub fn table_with_head(names: Vec<String>, shown: &[Vec<String>]) -> (table: Vec<Vec<String>>)
    ensures
        table_views(table@) == headed_table(text_views(names@), table_views(shown@)),
{
    let ghost head = text_views(names@);
    let ghost body = table_views(shown@);
    let mut table: Vec<Vec<String>> = Vec::new();
    table.push(names);
    let mut i: usize = 0;
    while i < shown.len()
        invariant
            i <= shown@.len(),
            body == table_views(shown@),
            table@.len() == i + 1,
            text_views(table@[0]@) == head,
            forall|k: int|
                0 <= k < i ==> text_views((#[trigger] table@[k + 1])@) == unquoted_row(body[k]),
        decreases shown@.len() - i,
    {
        let ghost before = table@;
        let row = row_without_quotes(shown[i].as_slice());
        assert(body[i as int] == text_views(shown@[i as int]@));
        table.push(row);
        assert forall|k: int| 0 <= k < i + 1 implies text_views((#[trigger] table@[k + 1])@)
            == unquoted_row(body[k]) by {
            if k < i {
                assert(table@[k + 1] == before[k + 1]);
            }
        }
        i += 1;
    }
    assert(table_views(table@) =~= headed_table(head, body)) by {
        assert forall|k: int| 0 <= k < table@.len() implies text_views(table@[k]@)
            == #[trigger] headed_table(head, body)[k] by {
            if k > 0 {
                assert(table@[(k - 1) + 1] == table@[k]);
            }
        }
    }
    table
}

/// The cells of a data frame as they are shown, row by row.
fn shown_rows(df: &polars_core::frame::DataFrame, width: usize) -> (shown: Vec<Vec<String>>)
    requires
        width == frame_columns(*df).len(),
    ensures
        shows(*df, table_views(shown@)),
{
    let height: usize = height_of(df);
    let ghost columns = frame_columns(*df);
    let mut shown: Vec<Vec<String>> = Vec::new();
    let mut r: usize = 0;
    while r < height
        invariant
            r <= height,
            width == columns.len(),
            columns == frame_columns(*df),
            shown@.len() == r,
            forall|k: int|
                0 <= k < r ==> row_shown(columns, k, text_views((#[trigger] shown@[k])@)),
        decreases height - r,
    {
        let mut cells: Vec<String> = Vec::new();
        let mut c: usize = 0;
        while c < width
            invariant
                c <= width,
                width == columns.len(),
                columns == frame_columns(*df),
                cells@.len() == c,
                forall|k: int|
                    0 <= k < c ==> shown_as(columns[k].1, r as int, (#[trigger] cells@[k])@),
            decreases width - c,
        {
            cells.push(shown_cell(df, c, r));
            c += 1;
        }
        assert(row_shown(columns, r as int, text_views(cells@))) by {
            assert forall|k: int| 0 <= k < columns.len() implies shown_as(
                columns[k].1,
                r as int,
                #[trigger] text_views(cells@)[k],
            ) by {
                assert(text_views(cells@)[k] == cells@[k]@);
            }
        }
        shown.push(cells);
        r += 1;
    }
    assert forall|k: int| 0 <= k < table_views(shown@).len() implies row_shown(
        columns,
        k,
        #[trigger] table_views(shown@)[k],
    ) by {
        assert(table_views(shown@)[k] == text_views(shown@[k]@));
    }
    shown
}

/// A data frame as a table of text, with the names of its columns on top.
pub(crate) fn frame_table(df: &polars_core::frame::DataFrame) -> (table: Vec<Vec<String>>)
    ensures
        exists|shown: Seq<Seq<Seq<char>>>| #[trigger]
            shows(*df, shown) && table_views(table@) == headed_table(
                column_names(frame_columns(*df)),
                shown,
            ),
{
    let names = names_of_columns(df);
    assert(text_views(names@).len() == names@.len());
    let shown = shown_rows(df, names.len());
    table_with_head(names, shown.as_slice())
}

} // verus!
