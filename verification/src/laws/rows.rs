//! The rows of a sheet: their order, and rows that stay as they are.

use vstd::prelude::*;
use crate::bytes::{find, find_from, lemma_find_from, lemma_rfind, occurs_at, rfind};
use crate::laws::bodies::{body_with, cell_text, lemma_cell_set};
use crate::laws::cells::{
    body_of, can_hold, is_row, keeps_row, lemma_around_row, lemma_number_of, lemma_other_digits,
    lemma_row_made, lemma_row_there, lemma_set_between, lemma_slot_tag, row_text, starts_next,
};
use crate::laws::commuting::lemma_other_element;
use crate::laws::neighbours::lemma_set_neighbour;
use crate::laws::pieces::lemma_byte_at;
use crate::laws::shapes::lemma_sheet_ends;
use crate::laws::tidy::{
    is_element, lemma_element_end, lemma_element_found, lemma_find_back, lemma_find_pieces,
    lemma_occurs_back, lemma_occurs_front, lemma_rfind_pieces, lemma_tag_behind, lemma_tag_in_front,
    lemma_tag_of_pieces, lemma_tidy_join, lemma_tidy_split, moved, tidy,
};
use crate::sheet::{
    cell_set, coord_row, lemma_opens, row_found, row_place, row_slot, tag_number, SheetView,
};
use crate::tags::{tag_at, tag_of};
use crate::text::{decimal, lemma_utf8_injective, utf8};

verus! {

// ---- places of rows in pieces -------------------------------------------------------------

/// The place in front of a larger row, searched from a place in the second of two pieces on.
proof fn lemma_slot_back(a: Seq<u8>, b: Seq<u8>, number: u32, i: int)
    requires
        0 <= i,
    ensures
        row_slot(a + b, number, a.len() + i) == moved(row_slot(b, number, i), a.len() as int),
    decreases b.len() + 1 - i,
{
    let open = utf8("<row "@);
    lemma_find_back(a, b, open, i);
    lemma_find_from(b, open, i);
    if let Some(p) = find_from(b, open, i) {
        lemma_tag_behind(a, b, p);
        lemma_slot_back(a, b, number, p + 1);
    }
}

/// The place in front of a larger row in two pieces: in the first one, or else in the second one.
pub proof fn lemma_slot_pieces(a: Seq<u8>, b: Seq<u8>, number: u32, i: int)
    requires
        tidy(a),
        0 <= i <= a.len(),
    ensures
        row_slot(a + b, number, i) == (match row_slot(a, number, i) {
            Some(p) => Some(p),
            None => moved(row_slot(b, number, 0), a.len() as int),
        }),
    decreases a.len() - i,
{
    let open = utf8("<row "@);
    lemma_sheet_ends();
    lemma_find_pieces(a, b, open, i);
    lemma_find_from(a, open, i);
    match find_from(a, open, i) {
        Some(p) => {
            lemma_byte_at(a, open, p, 0);
            lemma_tag_in_front(a, b, p);
            lemma_slot_pieces(a, b, number, p + 1);
        },
        None => {
            lemma_slot_back(a, b, number, 0);
            lemma_find_back(a, b, open, 0);
        },
    }
}

/// Whether a row goes in front of a row.
pub proof fn lemma_slot_of_row(k: Seq<u8>, own: u32, number: u32)
    requires
        is_element(k, "<row "@, "</row>"@, decimal(own as nat)),
    ensures
        row_slot(k, number, 0) == (if own > number {
            Some(0int)
        } else {
            None
        }),
{
    lemma_number_of(tag_at(k, 0), own);
    lemma_find_from(k, utf8("<row "@), 0);
    assert(find_from(k, utf8("<row "@), 0) == Some(0int));
    assert(row_slot(k, number, 1) is None);
}

/// Rows that are not larger than a number are not larger than a larger one.
pub proof fn lemma_slot_order(x: Seq<u8>, number: u32, larger: u32, i: int)
    requires
        0 <= i,
        number <= larger,
        row_slot(x, number, i) is None,
    ensures
        row_slot(x, larger, i) is None,
    decreases x.len() + 1 - i,
{
    lemma_find_from(x, utf8("<row "@), i);
    if let Some(p) = find_from(x, utf8("<row "@), i) {
        lemma_slot_order(x, number, larger, p + 1);
    }
}

// ---- other rows ---------------------------------------------------------------------------

/// The row `number` between two pieces, or the place where it goes.
pub open spec fn row_between(a: Seq<u8>, r: Seq<u8>, b: Seq<u8>, number: u32) -> bool {
    &&& tidy(a)
    &&& tidy(b)
    &&& tag_of(a, "<row "@, decimal(number as nat), 0) is None
    &&& (is_element(r, "<row "@, "</row>"@, decimal(number as nat)) && find(
        r,
        utf8("</sheetData>"@),
    ) is None) || (r.len() == 0 && starts_next(b, 0) && tag_of(
        b,
        "<row "@,
        decimal(number as nat),
        0,
    ) is None)
}

/// Two rows of a document stand apart.
#[verifier::spinoff_prover]
#[verifier::rlimit(60)]
proof fn lemma_rows_apart(
    a: Seq<u8>,
    r: Seq<u8>,
    b: Seq<u8>,
    number: u32,
    c: Seq<u8>,
    k: Seq<u8>,
    d: Seq<u8>,
    other: u32,
)
    requires
        number != other,
        row_between(a, r, b, number),
        row_between(c, k, d, other),
        k.len() > 0,
        a + r + b == c + k + d,
    ensures
        c.len() + k.len() <= a.len() || a.len() + r.len() <= c.len(),
{
    let xml = a + r + b;
    let open = utf8("<row "@);
    let data = utf8("</sheetData>"@);
    lemma_sheet_ends();
    lemma_opens();
    lemma_other_digits(number, other);
    assert(xml =~= a + (r + b));
    assert(xml =~= c + (k + d));
    if a.len() < c.len() + k.len() && c.len() < a.len() + r.len() {
        if c.len() < a.len() {
            let p = a.len() - c.len();
            assert(starts_next(r + b, 0)) by {
                if r.len() > 0 {
                    assert((r + b).subrange(0, 5) =~= r.subrange(0, 5));
                } else {
                    assert(r + b =~= b);
                }
            }
            lemma_occurs_back(a, r + b, open, 0);
            lemma_occurs_back(a, r + b, data, 0);
            lemma_occurs_back(c, k + d, open, p);
            lemma_occurs_back(c, k + d, data, p);
            lemma_occurs_front(k, d, open, p);
            lemma_occurs_front(k, d, data, p);
            lemma_find_from(k, open, 1);
            lemma_find_from(k, data, 0);
        } else if c.len() == a.len() {
            lemma_element_end(r, "<row "@, "</row>"@, decimal(number as nat));
            lemma_element_end(k, "<row "@, "</row>"@, decimal(other as nat));
            lemma_tag_behind(a, r + b, 0);
            lemma_tag_in_front(r, b, 0);
            lemma_tag_behind(c, k + d, 0);
            lemma_tag_in_front(k, d, 0);
        } else {
            let p = c.len() - a.len();
            assert((k + d).subrange(0, 5) =~= k.subrange(0, 5));
            lemma_occurs_back(c, k + d, open, 0);
            lemma_occurs_back(a, r + b, open, p);
            lemma_occurs_front(r, b, open, p);
            lemma_find_from(r, open, 1);
        }
    }
}

/// What stands behind a row that comes in front of another one, and in front of a row that comes
/// behind it.
#[verifier::spinoff_prover]
#[verifier::rlimit(60)]
proof fn lemma_between_rows(
    a: Seq<u8>,
    r: Seq<u8>,
    b: Seq<u8>,
    number: u32,
    c: Seq<u8>,
    k: Seq<u8>,
    d: Seq<u8>,
    other: u32,
) -> (between: Seq<u8>)
    requires
        number != other,
        row_between(a, r, b, number),
        row_between(c, k, d, other),
        k.len() > 0,
        a + r + b == c + k + d,
    ensures
        tidy(between),
        (a == c + k + between && d == between + r + b) || (c == a + r + between && b == between + k
            + d),
{
    let xml = a + r + b;
    lemma_sheet_ends();
    lemma_rows_apart(a, r, b, number, c, k, d, other);
    lemma_element_end(k, "<row "@, "</row>"@, decimal(other as nat));
    if c.len() + k.len() <= a.len() {
        let between = xml.subrange((c.len() + k.len()) as int, a.len() as int);
        assert(a =~= xml.take(a.len() as int));
        assert(a =~= c + k + between);
        assert(d =~= xml.skip((c.len() + k.len()) as int));
        assert(d =~= between + r + b);
        assert((c + k).last() == 62);
        lemma_tidy_split(c + k, between);
        between
    } else {
        let between = xml.subrange((a.len() + r.len()) as int, c.len() as int);
        assert(c =~= xml.take(c.len() as int));
        assert(c =~= a + r + between);
        assert(b =~= xml.skip((a.len() + r.len()) as int));
        assert(b =~= between + k + d);
        assert(b =~= between + (k + d));
        assert((k + d)[0] == 60);
        lemma_tidy_split(between, k + d);
        between
    }
}

/// A row that is changed or added leaves the others as they are.
#[verifier::spinoff_prover]
#[verifier::rlimit(60)]
pub proof fn lemma_other_row(a: Seq<u8>, r: Seq<u8>, b: Seq<u8>, new: Seq<u8>, number: u32, other: u32)
    requires
        number != other,
        row_between(a, r, b, number),
        is_row(new, number),
        keeps_row(a + r + b, other),
    ensures
        row_text(a + new + b, other) == row_text(a + r + b, other),
        keeps_row(a + new + b, other),
        row_found(a + r + b, other) is None ==> row_found(a + new + b, other) is None,
{
    let xml = a + r + b;
    let digits = decimal(other as nat);
    lemma_sheet_ends();
    lemma_other_digits(number, other);
    lemma_other_element(new, "<row "@, "</row>"@, decimal(number as nat), digits);
    lemma_tidy_join(a, new);
    lemma_tidy_join(a + new, b);
    match row_found(xml, other) {
        None => {
            assert(xml =~= a + (r + b));
            lemma_tag_of_pieces(a, r + b, "<row "@, digits, 0);
            if r.len() > 0 {
                lemma_tag_of_pieces(r, b, "<row "@, digits, 0);
            } else {
                assert(r + b =~= b);
            }
            assert(a + new + b =~= a + (new + b));
            lemma_tag_of_pieces(a, new + b, "<row "@, digits, 0);
            lemma_tag_of_pieces(new, b, "<row "@, digits, 0);
        },
        Some(_) => {
            let (c, t, k, d) = lemma_around_row(xml, other);
            lemma_element_end(k, "<row "@, "</row>"@, digits);
            let between = lemma_between_rows(a, r, b, number, c, k, d, other);
            lemma_row_moved(a, r, b, new, number, c, k, d, between, other);
            assert(xml.subrange(c.len() as int, (c.len() + k.len()) as int) =~= k);
        },
    }
}

/// Where a row stands when another one is changed or added.
#[verifier::spinoff_prover]
#[verifier::rlimit(60)]
proof fn lemma_row_moved(
    a: Seq<u8>,
    r: Seq<u8>,
    b: Seq<u8>,
    new: Seq<u8>,
    number: u32,
    c: Seq<u8>,
    k: Seq<u8>,
    d: Seq<u8>,
    between: Seq<u8>,
    other: u32,
)
    requires
        number != other,
        tidy(a),
        tidy(b),
        tidy(between),
        tidy(c),
        is_row(new, number),
        is_element(k, "<row "@, "</row>"@, decimal(other as nat)),
        tag_of(c, "<row "@, decimal(other as nat), 0) is None,
        r.len() == 0 || tidy(r),
        (a == c + k + between && d == between + r + b) || (c == a + r + between && b == between + k
            + d),
    ensures
        ({
            let xml = a + new + b;
            let start = if a == c + k + between && d == between + r + b {
                c.len() as int
            } else {
                (a + new + between).len() as int
            };
            &&& row_found(xml, other) == Some(
                Ok::<(int, int), crate::error::ErrorView>((start, start + k.len())),
            )
            &&& xml.subrange(start, start + k.len()) == k
        }),
{
    let xml = a + new + b;
    let digits = decimal(other as nat);
    lemma_sheet_ends();
    lemma_other_digits(number, other);
    lemma_other_element(new, "<row "@, "</row>"@, decimal(number as nat), digits);
    if a == c + k + between && d == between + r + b {
        assert(xml =~= c + k + (between + new + b));
        lemma_element_found(c, k, between + new + b, "<row "@, "</row>"@, digits, 0);
    } else {
        let front = a + new + between;
        assert(xml =~= front + k + d);
        lemma_tidy_join(a, new);
        lemma_tidy_join(a + new, between);
        assert(c =~= a + (r + between));
        lemma_tag_of_pieces(a, r + between, "<row "@, digits, 0);
        if r.len() > 0 {
            lemma_tag_of_pieces(r, between, "<row "@, digits, 0);
        } else {
            assert(r + between =~= between);
        }
        lemma_tag_of_pieces(a + new, between, "<row "@, digits, 0);
        lemma_tag_of_pieces(a, new, "<row "@, digits, 0);
        lemma_element_found(front, k, d, "<row "@, "</row>"@, digits, 0);
    }
}

/// The pieces around a row are such.
pub proof fn lemma_is_between(xml: Seq<u8>, number: u32, a: Seq<u8>, r: Seq<u8>, b: Seq<u8>)
    requires
        xml == a + r + b,
        tidy(a),
        tidy(b),
        tag_of(a, "<row "@, decimal(number as nat), 0) is None,
        match row_found(xml, number) {
            Some(_) => is_element(r, "<row "@, "</row>"@, decimal(number as nat)) && find(
                r,
                utf8("</sheetData>"@),
            ) is None,
            None => r.len() == 0 && starts_next(b, 0),
        },
    ensures
        row_between(a, r, b, number),
{
    lemma_sheet_ends();
    if row_found(xml, number) is None {
        assert(xml =~= a + b);
        lemma_tag_of_pieces(a, b, "<row "@, decimal(number as nat), 0);
    }
}

/// Setting a cell leaves every row but its own as it was.
pub proof fn law_other_rows_kept(sheet: SheetView, coord: Seq<char>, value: Seq<char>, other: u32)
    requires
        can_hold(sheet, coord),
        coord_row(coord) != Some(other),
        keeps_row(sheet.xml, other),
    ensures
        cell_set(sheet, coord, value) matches Some(outcome) ==> (outcome.result is Ok ==> row_text(
            outcome.sheet.xml,
            other,
        ) == row_text(sheet.xml, other)),
{
    let number = coord_row(coord)->0;
    if let Some(outcome) = cell_set(sheet, coord, value) {
        if outcome.result is Ok {
            let (a, t, r, b) = lemma_around_row(sheet.xml, number);
            let m = body_of(sheet.xml, number);
            lemma_set_between(sheet, number, a, t, r, b, coord, value);
            lemma_cell_set(m, coord, value);
            let set = body_with(m, coord, value)->0;
            lemma_row_made(t, set, number);
            lemma_is_between(sheet.xml, number, a, r, b);
            lemma_other_row(a, r, b, t + set, number, other);
        }
    }
}

/// Setting a cell leaves every other cell as it was, and the sheet can hold that one still.
pub proof fn law_other_cells_kept(
    sheet: SheetView,
    coord: Seq<char>,
    value: Seq<char>,
    other: Seq<char>,
)
    requires
        can_hold(sheet, coord),
        can_hold(sheet, other),
        coord != other,
    ensures
        cell_set(sheet, coord, value) matches Some(outcome) ==> (outcome.result is Ok ==> {
            let number = coord_row(other)->0;
            &&& cell_text(body_of(outcome.sheet.xml, number), other) == cell_text(
                body_of(sheet.xml, number),
                other,
            )
            &&& can_hold(outcome.sheet, other)
        }),
{
    let number = coord_row(coord)->0;
    if let Some(outcome) = cell_set(sheet, coord, value) {
        if outcome.result is Ok {
            let (a, t, r, b) = lemma_around_row(sheet.xml, number);
            let m = body_of(sheet.xml, number);
            lemma_set_between(sheet, number, a, t, r, b, coord, value);
            lemma_cell_set(m, coord, value);
            let set = body_with(m, coord, value)->0;
            if coord_row(other) == coord_row(coord) {
                lemma_row_there(a, t, set, b, number);
                if utf8(coord) == utf8(other) {
                    lemma_utf8_injective(coord, other);
                }
                lemma_set_neighbour(m, coord, value, other);
            } else {
                lemma_row_made(t, set, number);
                lemma_is_between(sheet.xml, number, a, r, b);
                lemma_other_row(a, r, b, t + set, number, coord_row(other)->0);
            }
        }
    }
}

// ---- the order of the rows ----------------------------------------------------------------

/// The numbers of the rows of a document from `i` on, in their order.
pub open spec fn row_numbers(xml: Seq<u8>, i: int) -> Seq<Option<u32>>
    decreases xml.len() + 1 - i,
{
    if i < 0 {
        Seq::empty()
    } else {
        match find_from(xml, utf8("<row "@), i) {
            None => Seq::empty(),
            Some(at) => {
                proof {
                    lemma_find_from(xml, utf8("<row "@), i);
                }
                seq![tag_number(tag_at(xml, at))] + row_numbers(xml, at + 1)
            },
        }
    }
}

/// Every number is there, and is larger than those in front of it.
pub open spec fn is_increasing(numbers: Seq<Option<u32>>) -> bool {
    &&& forall|i: int| 0 <= i < numbers.len() ==> #[trigger] numbers[i] is Some
    &&& forall|i: int, j: int|
        0 <= i < j < numbers.len() ==> (#[trigger] numbers[i])->0 < (#[trigger] numbers[j])->0
}

/// The rows of a sheet stand in front of the end of its data.
pub open spec fn rows_before_end(xml: Seq<u8>) -> bool {
    rfind(xml, utf8("</sheetData>"@)) matches Some(end) && find_from(xml, utf8("<row "@), end) is None
}

/// A row put in the place of a row, or where one goes, leaves the rows in front of the end of the data.
#[verifier::spinoff_prover]
#[verifier::rlimit(60)]
pub proof fn lemma_stay_before_end(a: Seq<u8>, r: Seq<u8>, b: Seq<u8>, new: Seq<u8>, number: u32)
    requires
        row_between(a, r, b, number),
        is_row(new, number),
        rows_before_end(a + r + b),
    ensures
        rows_before_end(a + new + b),
{
    let data = utf8("</sheetData>"@);
    let open = utf8("<row "@);
    let xml = a + r + b;
    lemma_sheet_ends();
    lemma_opens();
    if r.len() == 0 {
        assert(a + r =~= a);
    }
    lemma_tidy_join(a, new);
    lemma_tidy_join(a, r);
    lemma_rfind_pieces(a + r, b, data);
    lemma_rfind_pieces(a + new, b, data);
    lemma_rfind(b, data);
    lemma_rfind(xml, data);
    lemma_find_from(xml, open, rfind(xml, data)->0);
    match rfind(b, data) {
        Some(q) => {
            lemma_find_back(a + r, b, open, q);
            lemma_find_back(a + new, b, open, q);
        },
        None => {
            lemma_rfind_pieces(a, r, data);
            lemma_find_from(r, data, 0);
            lemma_rfind(r, data);
            lemma_rfind(a, data);
            assert(rfind(xml, data)->0 <= a.len());
            if r.len() > 0 {
                lemma_occurs_back(a, r, open, 0);
                lemma_occurs_front(a + r, b, open, a.len() as int);
            } else {
                lemma_occurs_back(a, b, open, 0);
            }
            assert(occurs_at(xml, open, a.len() as int));
        },
    }
}

/// The numbers of the rows from a place in the second of two pieces on.
proof fn lemma_numbers_back(a: Seq<u8>, b: Seq<u8>, i: int)
    requires
        0 <= i,
    ensures
        row_numbers(a + b, a.len() + i) == row_numbers(b, i),
    decreases b.len() + 1 - i,
{
    let open = utf8("<row "@);
    lemma_find_back(a, b, open, i);
    lemma_find_from(b, open, i);
    if let Some(p) = find_from(b, open, i) {
        lemma_tag_behind(a, b, p);
        lemma_numbers_back(a, b, p + 1);
    }
}

/// The numbers of the rows of two pieces.
proof fn lemma_numbers_pieces(a: Seq<u8>, b: Seq<u8>, i: int)
    requires
        tidy(a),
        0 <= i <= a.len(),
    ensures
        row_numbers(a + b, i) == row_numbers(a, i) + row_numbers(b, 0),
    decreases a.len() - i,
{
    let open = utf8("<row "@);
    lemma_sheet_ends();
    lemma_find_pieces(a, b, open, i);
    lemma_find_from(a, open, i);
    match find_from(a, open, i) {
        Some(p) => {
            lemma_byte_at(a, open, p, 0);
            lemma_tag_in_front(a, b, p);
            lemma_numbers_pieces(a, b, p + 1);
            let first = seq![tag_number(tag_at(a, p))];
            assert(first + (row_numbers(a, p + 1) + row_numbers(b, 0)) =~= (first + row_numbers(
                a,
                p + 1,
            )) + row_numbers(b, 0));
        },
        None => {
            lemma_numbers_back(a, b, 0);
            lemma_find_back(a, b, open, 0);
            assert(row_numbers(a, i) + row_numbers(b, 0) =~= row_numbers(b, 0));
        },
    }
}

/// A row has one number.
proof fn lemma_numbers_of_row(k: Seq<u8>, number: u32)
    requires
        is_element(k, "<row "@, "</row>"@, decimal(number as nat)),
    ensures
        row_numbers(k, 0) == seq![Some(number)],
{
    lemma_number_of(tag_at(k, 0), number);
    lemma_find_from(k, utf8("<row "@), 0);
    assert(find_from(k, utf8("<row "@), 0) == Some(0int));
    assert(row_numbers(k, 1) =~= Seq::empty());
    assert(row_numbers(k, 0) =~= seq![Some(number)]);
}

/// Where no row is larger than a number, none is.
proof fn lemma_numbers_below(x: Seq<u8>, number: u32, i: int)
    requires
        0 <= i,
        row_slot(x, number, i) is None,
    ensures
        forall|k: int|
            0 <= k < row_numbers(x, i).len() ==> (#[trigger] row_numbers(x, i)[k] matches Some(n)
                ==> n <= number),
    decreases x.len() + 1 - i,
{
    lemma_find_from(x, utf8("<row "@), i);
    if let Some(p) = find_from(x, utf8("<row "@), i) {
        lemma_numbers_below(x, number, p + 1);
        let rest = row_numbers(x, p + 1);
        assert forall|k: int| 0 <= k < row_numbers(x, i).len() implies (#[trigger] row_numbers(
            x,
            i,
        )[k] matches Some(n) ==> n <= number) by {
            if k > 0 {
                assert(row_numbers(x, i)[k] == rest[k - 1]);
            }
        }
    }
}

/// `after` has the numbers of `before` and `number`.
pub open spec fn has_one_more(
    before: Seq<Option<u32>>,
    number: u32,
    after: Seq<Option<u32>>,
) -> bool {
    forall|n: Option<u32>|
        #![trigger after.contains(n)]
        #![trigger before.contains(n)]
        after.contains(n) <==> (before.contains(n) || n == Some(number))
}

/// The numbers of two lists with one between them.
pub proof fn lemma_one_more(before: Seq<Option<u32>>, number: u32, behind: Seq<Option<u32>>)
    ensures
        has_one_more(before + behind, number, before + seq![Some(number)] + behind),
{
    let old = before + behind;
    let new = before + seq![Some(number)] + behind;
    let m = before.len() as int;
    assert forall|n: Option<u32>|
        #![trigger new.contains(n)]
        #![trigger old.contains(n)]
        new.contains(n) <==> (old.contains(n) || n == Some(number)) by {
        if new.contains(n) {
            let i = choose|i: int| 0 <= i < new.len() && new[i] == n;
            if i < m {
                assert(old[i] == n);
            } else if i > m {
                assert(old[i - 1] == n);
            }
        }
        if old.contains(n) {
            let i = choose|i: int| 0 <= i < old.len() && old[i] == n;
            if i < m {
                assert(new[i] == n);
            } else {
                assert(new[i + 1] == n);
            }
        }
        assert(new[m] == Some(number));
    }
}

/// Numbers that increase still do without one of them, which is then not among them.
pub proof fn lemma_one_less(before: Seq<Option<u32>>, number: u32, behind: Seq<Option<u32>>)
    requires
        is_increasing(before + seq![Some(number)] + behind),
    ensures
        is_increasing(before + behind),
        !(before + behind).contains(Some(number)),
{
    let old = before + seq![Some(number)] + behind;
    let new = before + behind;
    let m = before.len() as int;
    assert(old[m] == Some(number));
    assert forall|i: int| 0 <= i < new.len() implies #[trigger] new[i] is Some && new[i] != Some(
        number,
    ) by {
        if i < m {
            assert(new[i] == old[i]);
            assert(old[i]->0 < old[m]->0);
        } else {
            assert(new[i] == old[i + 1]);
            assert(old[m]->0 < old[i + 1]->0);
        }
    }
    assert forall|i: int, j: int| 0 <= i < j < new.len() implies (#[trigger] new[i])->0 < (
    #[trigger] new[j])->0 by {
        let a = if i < m {
            i
        } else {
            i + 1
        };
        let b = if j < m {
            j
        } else {
            j + 1
        };
        assert(new[i] == old[a] && new[j] == old[b]);
        assert(old[a]->0 < old[b]->0);
    }
}

/// A number between smaller ones and larger ones.
pub proof fn lemma_number_between(before: Seq<Option<u32>>, number: u32, behind: Seq<Option<u32>>)
    requires
        is_increasing(before + behind),
        !(before + behind).contains(Some(number)),
        forall|k: int|
            0 <= k < before.len() ==> (#[trigger] before[k] matches Some(n) ==> n <= number),
        behind.len() > 0 ==> (behind[0] matches Some(n) && n > number),
    ensures
        is_increasing(before + seq![Some(number)] + behind),
{
    let old = before + behind;
    let new = before + seq![Some(number)] + behind;
    let n = before.len() as int;
    assert forall|k: int| 0 <= k < n implies #[trigger] new[k] == old[k] && new[k] is Some && new[k]->0
        < number by {
        assert(old[k] == before[k]);
        assert(old[k] is Some);
        assert(old.contains(old[k]));
    }
    assert forall|k: int| n < k < new.len() implies #[trigger] new[k] == old[k - 1] && new[k] is Some
        && new[k]->0 > number by {
        assert(old[k - 1] is Some);
        assert(old[n] == behind[0]);
        if k - 1 > n {
            assert(old[n]->0 < old[k - 1]->0);
        }
    }
    assert(new[n] == Some(number));
    assert forall|i: int, j: int| 0 <= i < j < new.len() implies (#[trigger] new[i])->0 < (
    #[trigger] new[j])->0 by {
        if j < n {
            assert(old[i]->0 < old[j]->0);
        } else if i > n {
            assert(old[i - 1]->0 < old[j - 1]->0);
        }
    }
}

/// A list has the numbers that it has, and one of them.
pub proof fn lemma_there_already(before: Seq<Option<u32>>, number: u32, behind: Seq<Option<u32>>)
    ensures
        ({
            let all = before + seq![Some(number)] + behind;
            has_one_more(all, number, all)
        }),
{
    let all = before + seq![Some(number)] + behind;
    assert(all[before.len() as int] == Some(number));
}

/// Where a row goes, the rows in front are not larger, and those behind are.
proof fn lemma_numbers_at_place(a: Seq<u8>, b: Seq<u8>, number: u32)
    requires
        tidy(a),
        tidy(b),
        rows_before_end(a + b),
        row_place(a + b, number) == Some(a.len() as int),
    ensures
        row_slot(a, number, 0) is None,
        row_numbers(b, 0).len() > 0 ==> (row_numbers(b, 0)[0] matches Some(n) && n > number),
{
    lemma_slot_pieces(a, b, number, 0);
    lemma_slot_tag(a, number, 0);
    lemma_slot_tag(b, number, 0);
    lemma_find_back(a, b, utf8("<row "@), 0);
    lemma_opens();
    match row_slot(a + b, number, 0) {
        Some(at) => {
            if let Some(p) = row_slot(a, number, 0) {
                assert(p < a.len());
            }
            assert(row_slot(b, number, 0) == Some(0int));
            lemma_find_from(b, utf8("<row "@), 0);
            assert(find_from(b, utf8("<row "@), 0) == Some(0int));
        },
        None => {
            assert(find_from(b, utf8("<row "@), 0) is None);
        },
    }
}

/// Setting a cell keeps the rows in their order, each with a number larger than those in front of it,
/// where a row that has the number of the cell's row is found as that row; the numbers are those that
/// there were, and that of the cell's row, and the rows stand in front of the end of the data still.
pub proof fn law_rows_stay_in_order(sheet: SheetView, coord: Seq<char>, value: Seq<char>)
    requires
        can_hold(sheet, coord),
        rows_before_end(sheet.xml),
        is_increasing(row_numbers(sheet.xml, 0)),
        row_numbers(sheet.xml, 0).contains(coord_row(coord)) ==> row_found(
            sheet.xml,
            coord_row(coord)->0,
        ) is Some,
    ensures
        cell_set(sheet, coord, value) matches Some(outcome) ==> (outcome.result is Ok ==> {
            &&& is_increasing(row_numbers(outcome.sheet.xml, 0))
            &&& has_one_more(
                row_numbers(sheet.xml, 0),
                coord_row(coord)->0,
                row_numbers(outcome.sheet.xml, 0),
            )
            &&& rows_before_end(outcome.sheet.xml)
        }),
{
    let number = coord_row(coord)->0;
    if let Some(outcome) = cell_set(sheet, coord, value) {
        if outcome.result is Ok {
            let (a, t, r, b) = lemma_around_row(sheet.xml, number);
            let m = body_of(sheet.xml, number);
            lemma_set_between(sheet, number, a, t, r, b, coord, value);
            lemma_cell_set(m, coord, value);
            let set = body_with(m, coord, value)->0;
            let new = t + set;
            lemma_row_made(t, set, number);
            lemma_sheet_ends();
            lemma_is_between(sheet.xml, number, a, r, b);
            lemma_stay_before_end(a, r, b, new, number);
            lemma_tidy_join(a, new);
            lemma_numbers_pieces(a + new, b, 0);
            lemma_numbers_pieces(a, new, 0);
            lemma_numbers_of_row(new, number);
            if r.len() > 0 {
                lemma_tidy_join(a, r);
                lemma_numbers_pieces(a + r, b, 0);
                lemma_numbers_pieces(a, r, 0);
                lemma_numbers_of_row(r, number);
                lemma_there_already(row_numbers(a, 0), number, row_numbers(b, 0));
            } else {
                assert(sheet.xml =~= a + b);
                lemma_numbers_pieces(a, b, 0);
                if row_found(sheet.xml, number) is Some {
                    lemma_element_end(r, "<row "@, "</row>"@, decimal(number as nat));
                }
                lemma_numbers_at_place(a, b, number);
                lemma_numbers_below(a, number, 0);
                lemma_number_between(row_numbers(a, 0), number, row_numbers(b, 0));
                lemma_one_more(row_numbers(a, 0), number, row_numbers(b, 0));
            }
        }
    }
}

// ---- cells of different rows --------------------------------------------------------------

/// Where a row goes when another one that is there is changed.
proof fn lemma_place_beside(c: Seq<u8>, k: Seq<u8>, d: Seq<u8>, new: Seq<u8>, own: u32, number: u32)
    requires
        tidy(c),
        tidy(d),
        is_element(k, "<row "@, "</row>"@, decimal(own as nat)),
        find(k, utf8("</sheetData>"@)) is None,
        is_row(new, own),
        row_place(c + k + d, number) is Some,
    ensures
        ({
            let q = row_place(c + k + d, number)->0;
            ||| q <= c.len() && row_place(c + new + d, number) == Some(q)
            ||| q >= c.len() + k.len() && row_place(c + new + d, number) == Some(
                q - k.len() + new.len(),
            )
        }),
{
    let data = utf8("</sheetData>"@);
    lemma_sheet_ends();
    lemma_opens();
    assert(c + k + d =~= c + (k + d));
    assert(c + new + d =~= c + (new + d));
    lemma_slot_pieces(c, k + d, number, 0);
    lemma_slot_pieces(k, d, number, 0);
    lemma_slot_pieces(c, new + d, number, 0);
    lemma_slot_pieces(new, d, number, 0);
    lemma_slot_of_row(k, own, number);
    lemma_slot_of_row(new, own, number);
    lemma_slot_tag(c, number, 0);
    lemma_slot_tag(d, number, 0);
    lemma_rfind_pieces(c, k + d, data);
    lemma_rfind_pieces(k, d, data);
    lemma_rfind_pieces(c, new + d, data);
    lemma_rfind_pieces(new, d, data);
    lemma_rfind(k, data);
    lemma_rfind(new, data);
    lemma_rfind(c, data);
    lemma_rfind(d, data);
    lemma_find_from(k, data, 0);
    lemma_find_from(new, data, 0);
}

/// Where a row goes when another one that is not there is added.
#[verifier::spinoff_prover]
#[verifier::rlimit(60)]
proof fn lemma_place_beside_new(a: Seq<u8>, b: Seq<u8>, new: Seq<u8>, own: u32, number: u32)
    requires
        own != number,
        tidy(a),
        tidy(b),
        is_row(new, own),
        rows_before_end(a + b),
        row_place(a + b, own) == Some(a.len() as int),
        row_place(a + b, number) is Some,
    ensures
        ({
            let q = row_place(a + b, number)->0;
            if number > own {
                q >= a.len() && row_place(a + new + b, number) == Some(q + new.len())
            } else {
                q <= a.len() && row_place(a + new + b, number) == Some(q)
            }
        }),
{
    let data = utf8("</sheetData>"@);
    lemma_sheet_ends();
    lemma_opens();
    lemma_numbers_at_place(a, b, own);
    assert(a + new + b =~= a + (new + b));
    lemma_slot_pieces(a, b, number, 0);
    lemma_slot_pieces(a, b, own, 0);
    lemma_slot_pieces(a, new + b, number, 0);
    lemma_slot_pieces(new, b, number, 0);
    lemma_slot_of_row(new, own, number);
    lemma_slot_tag(a, number, 0);
    lemma_slot_tag(a, own, 0);
    lemma_slot_tag(b, number, 0);
    lemma_slot_tag(b, own, 0);
    lemma_rfind_pieces(a, b, data);
    lemma_rfind_pieces(a, new + b, data);
    lemma_rfind_pieces(new, b, data);
    lemma_rfind(a, data);
    lemma_rfind(b, data);
    lemma_find_back(a, b, utf8("<row "@), 0);
    let end = rfind(a + b, data)->0;
    lemma_rfind(a + b, data);
    lemma_find_from(a + b, utf8("<row "@), end);
    lemma_find_from(b, utf8("<row "@), 0);
    if number > own {
        lemma_slot_order(a, own, number, 0);
        // the end of the data is behind the place of the new row
        if row_slot(a + b, own, 0) is Some {
            lemma_occurs_back(a, b, utf8("<row "@), 0);
            assert(occurs_at(a + b, utf8("<row "@), a.len() as int));
        }
        assert(a.len() <= end);
    } else {
        if row_slot(a, number, 0) is None {
            if row_slot(b, own, 0) is Some {
                assert(find_from(b, utf8("<row "@), 0) == Some(0int));
            } else {
                assert(row_slot(b, number, 0) is None);
            }
        }
    }
}

/// Two cells of different rows can be set in either order, where the rows stand in front of the end of
/// the data.
#[verifier::spinoff_prover]
#[verifier::rlimit(60)]
pub proof fn law_set_cells_of_rows_commute(
    sheet: SheetView,
    one: Seq<char>,
    first: Seq<char>,
    other: Seq<char>,
    second: Seq<char>,
)
    requires
        can_hold(sheet, one),
        can_hold(sheet, other),
        coord_row(one) != coord_row(other),
        rows_before_end(sheet.xml),
    ensures
        cell_set(sheet, one, first) matches Some(left) ==> (cell_set(sheet, other, second)
            matches Some(right) ==> (left.result is Ok && right.result is Ok ==> cell_set(
            left.sheet,
            other,
            second,
        ) == cell_set(right.sheet, one, first))),
{
    let n1 = coord_row(one)->0;
    let n2 = coord_row(other)->0;
    let left = cell_set(sheet, one, first);
    let right = cell_set(sheet, other, second);
    if left is Some && right is Some && left->0.result is Ok && right->0.result is Ok {
        let (a1, t1, r1, b1) = lemma_around_row(sheet.xml, n1);
        let (a2, t2, r2, b2) = lemma_around_row(sheet.xml, n2);
        let m1 = body_of(sheet.xml, n1);
        let m2 = body_of(sheet.xml, n2);
        lemma_set_between(sheet, n1, a1, t1, r1, b1, one, first);
        lemma_set_between(sheet, n2, a2, t2, r2, b2, other, second);
        lemma_cell_set(m1, one, first);
        lemma_cell_set(m2, other, second);
        let set1 = body_with(m1, one, first)->0;
        let set2 = body_with(m2, other, second)->0;
        lemma_row_made(t1, set1, n1);
        lemma_row_made(t2, set2, n2);
        lemma_is_between(sheet.xml, n1, a1, r1, b1);
        lemma_is_between(sheet.xml, n2, a2, r2, b2);
        lemma_other_row(a1, r1, b1, t1 + set1, n1, n2);
        lemma_other_row(a2, r2, b2, t2 + set2, n2, n1);
        let new1 = t1 + set1;
        let new2 = t2 + set2;
        let (c2, d2, c1, d1) = lemma_both_ways(
            sheet.xml,
            n1,
            a1,
            r1,
            b1,
            new1,
            n2,
            a2,
            r2,
            b2,
            new2,
        );
        lemma_set_between(left->0.sheet, n2, c2, t2, r2, d2, other, second);
        lemma_set_between(right->0.sheet, n1, c1, t1, r1, d1, one, first);
    }
}

/// The pieces around each of two rows when the other one is changed or added.
#[verifier::spinoff_prover]
#[verifier::rlimit(60)]
proof fn lemma_both_ways(
    xml: Seq<u8>,
    n1: u32,
    a1: Seq<u8>,
    r1: Seq<u8>,
    b1: Seq<u8>,
    new1: Seq<u8>,
    n2: u32,
    a2: Seq<u8>,
    r2: Seq<u8>,
    b2: Seq<u8>,
    new2: Seq<u8>,
) -> (pieces: (Seq<u8>, Seq<u8>, Seq<u8>, Seq<u8>))
    requires
        n1 != n2,
        xml == a1 + r1 + b1,
        xml == a2 + r2 + b2,
        rows_before_end(xml),
        row_between(a1, r1, b1, n1),
        row_between(a2, r2, b2, n2),
        is_row(new1, n1),
        is_row(new2, n2),
        r1.len() == 0 ==> row_place(xml, n1) == Some(a1.len() as int),
        r2.len() == 0 ==> row_place(xml, n2) == Some(a2.len() as int),
    ensures
        ({
            let (c2, d2, c1, d1) = pieces;
            &&& a1 + new1 + b1 == c2 + r2 + d2
            &&& a2 + new2 + b2 == c1 + r1 + d1
            &&& c2 + new2 + d2 == c1 + new1 + d1
            &&& r2.len() > 0 ==> row_found(a1 + new1 + b1, n2) == Some(
                Ok::<(int, int), crate::error::ErrorView>(
                    (c2.len() as int, (c2.len() + r2.len()) as int),
                ),
            )
            &&& r2.len() == 0 ==> row_place(a1 + new1 + b1, n2) == Some(c2.len() as int)
            &&& r1.len() > 0 ==> row_found(a2 + new2 + b2, n1) == Some(
                Ok::<(int, int), crate::error::ErrorView>(
                    (c1.len() as int, (c1.len() + r1.len()) as int),
                ),
            )
            &&& r1.len() == 0 ==> row_place(a2 + new2 + b2, n1) == Some(c1.len() as int)
        }),
{
    if r2.len() > 0 {
        lemma_one_there(xml, n1, a1, r1, b1, new1, n2, a2, r2, b2, new2)
    } else if r1.len() > 0 {
        let (c1, d1, c2, d2) = lemma_one_there(xml, n2, a2, r2, b2, new2, n1, a1, r1, b1, new1);
        (c2, d2, c1, d1)
    } else {
        assert(a1 + r1 + b1 =~= a1 + b1);
        assert(a2 + r2 + b2 =~= a2 + b2);
        if n1 < n2 {
            lemma_none_there(n1, a1, b1, new1, n2, a2, b2, new2, r1)
        } else {
            let (c1, d1, c2, d2) = lemma_none_there(n2, a2, b2, new2, n1, a1, b1, new1, r1);
            assert(r1 =~= r2);
            (c2, d2, c1, d1)
        }
    }
}

/// Two ways to cut a document in two.
proof fn lemma_cut(a: Seq<u8>, b: Seq<u8>, c: Seq<u8>, d: Seq<u8>) -> (between: Seq<u8>)
    requires
        a + b == c + d,
        a.len() <= c.len(),
    ensures
        b == between + d,
        c == a + between,
{
    let xml = a + b;
    let between = xml.subrange(a.len() as int, c.len() as int);
    assert(b =~= xml.skip(a.len() as int));
    assert(d =~= xml.skip(c.len() as int));
    assert(a =~= xml.take(a.len() as int));
    assert(c =~= xml.take(c.len() as int));
    assert(b =~= between + d);
    assert(c =~= a + between);
    between
}

/// The pieces around each of two rows, where neither is there.
proof fn lemma_none_there(
    n1: u32,
    a1: Seq<u8>,
    b1: Seq<u8>,
    new1: Seq<u8>,
    n2: u32,
    a2: Seq<u8>,
    b2: Seq<u8>,
    new2: Seq<u8>,
    none: Seq<u8>,
) -> (pieces: (Seq<u8>, Seq<u8>, Seq<u8>, Seq<u8>))
    requires
        n1 < n2,
        none.len() == 0,
        a1 + b1 == a2 + b2,
        tidy(a1),
        tidy(b1),
        tidy(a2),
        tidy(b2),
        rows_before_end(a1 + b1),
        is_row(new1, n1),
        is_row(new2, n2),
        row_place(a1 + b1, n1) == Some(a1.len() as int),
        row_place(a1 + b1, n2) == Some(a2.len() as int),
    ensures
        ({
            let (c2, d2, c1, d1) = pieces;
            &&& a1 + new1 + b1 == c2 + none + d2
            &&& a2 + new2 + b2 == c1 + none + d1
            &&& c2 + new2 + d2 == c1 + new1 + d1
            &&& row_place(a1 + new1 + b1, n2) == Some(c2.len() as int)
            &&& row_place(a2 + new2 + b2, n1) == Some(c1.len() as int)
        }),
{
    lemma_place_beside_new(a1, b1, new1, n1, n2);
    lemma_place_beside_new(a2, b2, new2, n2, n1);
    let between = lemma_cut(a1, b1, a2, b2);
    lemma_regroup(a1, none, new1, between, none, new2, b2);
    (a1 + new1 + between, b2, a1, between + new2 + b2)
}

/// Two changes between three pieces, in either order.
proof fn lemma_regroup(
    a: Seq<u8>,
    r: Seq<u8>,
    new: Seq<u8>,
    between: Seq<u8>,
    k: Seq<u8>,
    other: Seq<u8>,
    b: Seq<u8>,
)
    ensures
        a + new + (between + k + b) == (a + new + between) + k + b,
        (a + r + between) + other + b == a + r + (between + other + b),
        (a + new + between) + other + b == a + new + (between + other + b),
        k.len() == 0 ==> a + new + (between + b) == (a + new + between) + k + b,
        r.len() == 0 ==> (a + between) + other + b == a + r + (between + other + b),
{
    assert(a + new + (between + k + b) =~= (a + new + between) + k + b);
    assert((a + r + between) + other + b =~= a + r + (between + other + b));
    assert((a + new + between) + other + b =~= a + new + (between + other + b));
    if k.len() == 0 {
        assert(a + new + (between + b) =~= (a + new + between) + k + b);
    }
    if r.len() == 0 {
        assert((a + between) + other + b =~= a + r + (between + other + b));
    }
}

/// The pieces around each of two rows, where the second one is there.
#[verifier::spinoff_prover]
#[verifier::rlimit(60)]
proof fn lemma_one_there(
    xml: Seq<u8>,
    n1: u32,
    a1: Seq<u8>,
    r1: Seq<u8>,
    b1: Seq<u8>,
    new1: Seq<u8>,
    n2: u32,
    a2: Seq<u8>,
    r2: Seq<u8>,
    b2: Seq<u8>,
    new2: Seq<u8>,
) -> (pieces: (Seq<u8>, Seq<u8>, Seq<u8>, Seq<u8>))
    requires
        n1 != n2,
        xml == a1 + r1 + b1,
        xml == a2 + r2 + b2,
        row_between(a1, r1, b1, n1),
        row_between(a2, r2, b2, n2),
        is_row(new1, n1),
        is_row(new2, n2),
        r2.len() > 0,
        r1.len() == 0 ==> row_place(xml, n1) == Some(a1.len() as int),
    ensures
        ({
            let (c2, d2, c1, d1) = pieces;
            &&& a1 + new1 + b1 == c2 + r2 + d2
            &&& a2 + new2 + b2 == c1 + r1 + d1
            &&& c2 + new2 + d2 == c1 + new1 + d1
            &&& row_found(a1 + new1 + b1, n2) == Some(
                Ok::<(int, int), crate::error::ErrorView>(
                    (c2.len() as int, (c2.len() + r2.len()) as int),
                ),
            )
            &&& r1.len() > 0 ==> row_found(a2 + new2 + b2, n1) == Some(
                Ok::<(int, int), crate::error::ErrorView>(
                    (c1.len() as int, (c1.len() + r1.len()) as int),
                ),
            )
            &&& r1.len() == 0 ==> row_place(a2 + new2 + b2, n1) == Some(c1.len() as int)
        }),
{
    let between = lemma_between_rows(a1, r1, b1, n1, a2, r2, b2, n2);
    lemma_row_moved(a1, r1, b1, new1, n1, a2, r2, b2, between, n2);
    if r1.len() == 0 {
        lemma_place_beside(a2, r2, b2, new2, n2, n1);
    } else {
        lemma_row_moved(a2, r2, b2, new2, n2, a1, r1, b1, between, n1);
    }
    lemma_opens();
    if a1 == a2 + r2 + between && b2 == between + r1 + b1 {
        lemma_regroup(a2, r2, new2, between, r1, new1, b1);
        (a2, between + new1 + b1, a2 + new2 + between, b1)
    } else {
        lemma_regroup(a1, r1, new1, between, r2, new2, b2);
        (a1 + new1 + between, b2, a1, between + new2 + b2)
    }
}

} // verus!
