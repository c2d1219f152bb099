//! The largest numbers that are taken, the names of sheets, and the last row.

use vstd::prelude::*;
use crate::coord::{column_index, column_letters};
use crate::error::ErrorView;
use crate::laws::naming::law_row_of_coordinate;
use crate::laws::queries::{
    law_last_row_is_an_upper_bound, law_last_row_is_reached, law_last_rows_agree,
};
use crate::laws::words::law_split;
use crate::query::{cell_ref, column_part, in_a_column, last_row_in, last_rows_in, row_part};
use crate::text::{
    all_digits, all_letters, is_digit, is_letter, lemma_split_not_empty, split, trim, u32_of,
    uppercase, usize_of,
};
use crate::workbook::{
    file_number, largest_file, largest_relation, largest_sheet_id, last_row_of, relation_number,
    sheet_names,
};
use crate::xml::{attribute_text, TagView};

verus! {

// ---- what identifies a sheet --------------------------------------------------------------

/// The number of a sheet, a relationship or a row that a text writes, and zero where it writes none.
pub open spec fn written_number(text: Seq<char>) -> u32 {
    match u32_of(text) {
        Some(n) => n,
        None => 0,
    }
}

/// The largest number of a sheet is zero or that of a sheet, and no sheet has a larger one.
pub proof fn law_largest_sheet_id(sheets: Seq<TagView>, i: int)
    ensures
        0 <= i < sheets.len() ==> (attribute_text(sheets[i], "sheetId"@) matches Some(text)
            ==> written_number(text) <= largest_sheet_id(sheets)),
        largest_sheet_id(sheets) == 0 || exists|k: int|
            0 <= k < sheets.len() && (attribute_text(#[trigger] sheets[k], "sheetId"@) matches Some(
                text,
            ) && written_number(text) == largest_sheet_id(sheets)),
    decreases sheets.len(),
{
    if sheets.len() > 0 {
        let front = sheets.drop_last();
        law_largest_sheet_id(front, i);
        assert(sheets[sheets.len() - 1] == sheets.last());
        if 0 <= i < front.len() {
            assert(front[i] == sheets[i]);
        }
        if largest_sheet_id(sheets) == largest_sheet_id(front) && largest_sheet_id(front) != 0 {
            let k = choose|k: int|
                0 <= k < front.len() && (attribute_text(#[trigger] front[k], "sheetId"@) matches Some(
                    text,
                ) && written_number(text) == largest_sheet_id(front));
            assert(front[k] == sheets[k]);
        }
    }
}

/// A relationship called `rId` with a number behind it has that number, and any other none.
pub proof fn law_relation_number(digits: Seq<char>, id: Seq<char>)
    ensures
        relation_number("rId"@ + digits) == written_number(digits),
        relation_number(id) != 0 ==> exists|text: Seq<char>| id == #[trigger] ("rId"@ + text),
{
    reveal_strlit("rId");
    assert(("rId"@ + digits).take(3) =~= "rId"@);
    assert(("rId"@ + digits).skip(3) =~= digits);
    if relation_number(id) != 0 {
        assert(id =~= "rId"@ + id.skip(3));
    }
}

/// The largest number of a relationship is zero or that of a relationship, and none has a larger one.
pub proof fn law_largest_relation(relations: Seq<TagView>, i: int)
    ensures
        0 <= i < relations.len() ==> (attribute_text(relations[i], "Id"@) matches Some(id)
            ==> relation_number(id) <= largest_relation(relations)),
        largest_relation(relations) == 0 || exists|k: int|
            0 <= k < relations.len() && (attribute_text(#[trigger] relations[k], "Id"@) matches Some(id)
                && relation_number(id) == largest_relation(relations)),
    decreases relations.len(),
{
    if relations.len() > 0 {
        let front = relations.drop_last();
        law_largest_relation(front, i);
        assert(relations[relations.len() - 1] == relations.last());
        if 0 <= i < front.len() {
            assert(front[i] == relations[i]);
        }
        if largest_relation(relations) == largest_relation(front) && largest_relation(front) != 0 {
            let k = choose|k: int|
                0 <= k < front.len() && (attribute_text(#[trigger] front[k], "Id"@) matches Some(id)
                    && relation_number(id) == largest_relation(front));
            assert(front[k] == relations[k]);
        }
    }
}

/// The file of a sheet has the number that stands in its path; any other path has none.
pub proof fn law_file_number(digits: Seq<char>, path: Seq<char>)
    ensures
        file_number("xl/worksheets/sheet"@ + digits + ".xml"@) == usize_of(digits),
        file_number(path) is Some ==> exists|text: Seq<char>|
            path == #[trigger] ("xl/worksheets/sheet"@ + text + ".xml"@),
{
    let head = "xl/worksheets/sheet"@;
    let tail = ".xml"@;
    let whole = head + digits + tail;
    assert(whole.take(head.len() as int) =~= head);
    assert(whole.skip(whole.len() - tail.len()) =~= tail);
    assert(whole.subrange(head.len() as int, whole.len() - tail.len()) =~= digits);
    if file_number(path) is Some {
        let text = path.subrange(head.len() as int, path.len() - tail.len());
        assert(path =~= head + text + tail);
    }
}

/// The largest number of a sheet's file is zero or that of a file, and no file has a larger one.
pub proof fn law_largest_file(paths: Seq<Seq<char>>, i: int)
    ensures
        0 <= i < paths.len() ==> (file_number(paths[i]) matches Some(n) ==> n <= largest_file(paths)),
        largest_file(paths) == 0 || exists|k: int|
            0 <= k < paths.len() && file_number(#[trigger] paths[k]) == Some(largest_file(paths)),
    decreases paths.len(),
{
    if paths.len() > 0 {
        let front = paths.drop_last();
        law_largest_file(front, i);
        assert(paths[paths.len() - 1] == paths.last());
        if 0 <= i < front.len() {
            assert(front[i] == paths[i]);
        }
        if largest_file(paths) == largest_file(front) && largest_file(front) != 0 {
            let k = choose|k: int|
                0 <= k < front.len() && file_number(#[trigger] front[k]) == Some(largest_file(front));
            assert(front[k] == paths[k]);
        }
    }
}

// ---- sheets and rows ----------------------------------------------------------------------

/// The names of the sheets are those of their tags, in their order; a tag without a name has none.
pub proof fn law_sheet_names(a: Seq<TagView>, b: Seq<TagView>, tag: TagView)
    ensures
        sheet_names(a + b) == sheet_names(a) + sheet_names(b),
        sheet_names(Seq::empty()) == Seq::<Seq<char>>::empty(),
        sheet_names(seq![tag]) == (match attribute_text(tag, "name"@) {
            Some(name) => seq![name],
            None => Seq::empty(),
        }),
    decreases b.len(),
{
    reveal_with_fuel(sheet_names, 2);
    assert(seq![tag].drop_last() =~= Seq::<TagView>::empty());
    assert(sheet_names(seq![tag]) =~= (match attribute_text(tag, "name"@) {
        Some(name) => seq![name],
        None => Seq::empty(),
    }));
    if b.len() == 0 {
        assert(a + b =~= a);
        assert(sheet_names(a) + sheet_names(b) =~= sheet_names(a));
    } else {
        law_sheet_names(a, b.drop_last(), tag);
        assert((a + b).drop_last() =~= a + b.drop_last());
        assert((a + b).last() == b.last());
        assert(sheet_names(a + b) =~= sheet_names(a) + sheet_names(b));
    }
}

/// The tag of a row that writes a number.
pub open spec fn writes_row(tag: TagView) -> bool {
    attribute_text(tag, "r"@) matches Some(text) && u32_of(text) is Some
}

/// The last row is the number of the last tag that writes one, and zero where none does.
pub proof fn law_last_row(a: Seq<TagView>, tag: TagView, b: Seq<TagView>)
    requires
        forall|i: int| 0 <= i < b.len() ==> !writes_row(#[trigger] b[i]),
    ensures
        attribute_text(tag, "r"@) matches Some(text) ==> (u32_of(text) matches Some(number)
            ==> last_row_of(a.push(tag) + b) == number),
        last_row_of(b) == 0,
    decreases b.len(),
{
    if b.len() == 0 {
        assert(a.push(tag) + b =~= a.push(tag));
    } else {
        let front = b.drop_last();
        assert forall|i: int| 0 <= i < front.len() implies !writes_row(#[trigger] front[i]) by {
            assert(front[i] == b[i]);
        }
        law_last_row(a, tag, front);
        assert((a.push(tag) + b).drop_last() =~= a.push(tag) + front);
        assert((a.push(tag) + b).last() == b[b.len() - 1]);
        assert(b.last() == b[b.len() - 1]);
        assert(!writes_row(b[b.len() - 1]));
    }
}

// ---- how far columns reach ----------------------------------------------------------------

/// A cell whose tag refers to letters and digits counts for the column of the letters, small or
/// capital, with the row of the digits.
pub proof fn law_row_counts(
    cells: Seq<TagView>,
    i: int,
    letters: Seq<char>,
    digits: Seq<char>,
    columns: Seq<Seq<char>>,
)
    requires
        0 <= i < cells.len(),
        attribute_text(cells[i], "r"@) == Some(letters + digits),
        all_letters(letters),
        all_digits(digits),
        columns.contains(uppercase(letters)),
    ensures
        written_number(digits) <= last_row_in(cells, columns),
{
    lemma_parts(letters, digits);
    law_last_row_is_an_upper_bound(cells, columns, i);
}

/// The parts of the name of a cell.
proof fn lemma_parts(letters: Seq<char>, digits: Seq<char>)
    requires
        all_letters(letters),
        all_digits(digits),
    ensures
        column_part(letters + digits) == uppercase(letters),
        row_part(letters + digits) == written_number(digits),
{
    assert forall|k: int| 0 <= k < letters.len() implies !is_digit(#[trigger] letters[k]) by {
        assert(is_letter(letters[k]));
    }
    assert(is_digit(digits[0]));
    law_row_of_coordinate(letters, digits);
}

/// The last row of some columns is zero or the row of a cell of theirs: of one whose tag refers to
/// letters, which stand for one of the columns, and then digits.
pub proof fn law_row_is_reached(cells: Seq<TagView>, columns: Seq<Seq<char>>)
    ensures
        last_row_in(cells, columns) == 0 || exists|i: int|
            0 <= i < cells.len() && (attribute_text(#[trigger] cells[i], "r"@) matches Some(coord)
                && columns.contains(column_part(coord)) && row_part(coord) == last_row_in(
                cells,
                columns,
            )),
{
    law_last_row_is_reached(cells, columns);
    if last_row_in(cells, columns) != 0 {
        let i = choose|i: int|
            0 <= i < cells.len() && (cell_ref(#[trigger] cells[i]) matches Some(coord)
                && columns.contains(column_part(coord)) && row_part(coord) == last_row_in(
                cells,
                columns,
            ));
        assert(attribute_text(cells[i], "r"@) is Some);
    }
}

/// The last rows of a range are those of its columns from the first to the last, one by one; a range
/// whose ends stand the other way round is refused, and so is a text without one colon.
pub proof fn law_last_rows(cells: Seq<TagView>, a: Seq<char>, b: Seq<char>, first: usize, last: usize)
    requires
        !a.contains(':'),
        !b.contains(':'),
        column_index(uppercase(trim(a))) == Some(first),
        column_index(uppercase(trim(b))) == Some(last),
        last < usize::MAX,
        forall|i: int|
            0 <= i < cells.len() ==> (attribute_text(#[trigger] cells[i], "r"@) matches Some(coord)
                ==> all_letters(column_part(coord)) && column_index(column_part(coord)) is Some),
    ensures
        first > last ==> last_rows_in(cells, a + ":"@ + b) == Some(
            Err::<Seq<u32>, ErrorView>(ErrorView::InvalidRangeOrder),
        ),
        first <= last ==> (last_rows_in(cells, a + ":"@ + b) matches Some(Ok(rows)) && rows.len()
            == last - first + 1 && forall|k: int|
            0 <= k < rows.len() ==> #[trigger] rows[k] == last_row_in(
                cells,
                seq![column_letters((first + k) as nat)],
            )),
{
    reveal_strlit(":");
    assert(":"@ =~= seq![':']);
    law_split(a, b, ':');
    law_split(b, a, ':');
    let ends = split(a + ":"@ + b, ':');
    assert(ends =~= seq![a, b]);
    assert(ends[0] == a && ends[1] == b);
    assert forall|i: int| 0 <= i < cells.len() implies in_a_column(#[trigger] cells[i]) by {
        assert(cell_ref(cells[i]) == attribute_text(cells[i], "r"@));
    }
    if first <= last {
        let rows = last_rows_in(cells, a + ":"@ + b)->0->Ok_0;
        assert forall|k: int| 0 <= k < rows.len() implies #[trigger] rows[k] == last_row_in(
            cells,
            seq![column_letters((first + k) as nat)],
        ) by {
            assert forall|i: int| 0 <= i < cells.len() implies (cell_ref(
                #[trigger] cells[i],
            ) matches Some(coord) ==> all_letters(column_part(coord))) by {
                assert(cell_ref(cells[i]) == attribute_text(cells[i], "r"@));
            }
            law_last_rows_agree(cells, (first + k) as usize);
        }
    }
}

/// A text without one colon names no range of columns.
pub proof fn law_last_rows_refused(cells: Seq<TagView>, a: Seq<char>, b: Seq<char>, c: Seq<char>)
    requires
        !a.contains(':'),
        !b.contains(':'),
    ensures
        last_rows_in(cells, a) == Some(Err::<Seq<u32>, ErrorView>(ErrorView::InvalidRange(a))),
        last_rows_in(cells, a + ":"@ + (b + ":"@ + c)) == Some(
            Err::<Seq<u32>, ErrorView>(ErrorView::InvalidRange(a + ":"@ + (b + ":"@ + c))),
        ),
{
    reveal_strlit(":");
    assert(":"@ =~= seq![':']);
    law_split(a, b + ":"@ + c, ':');
    law_split(b, c, ':');
    lemma_split_not_empty(c, ':');
}

} // verus!
