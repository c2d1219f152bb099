//! The parts of a workbook: its sheets, and what identifies them.

use vstd::prelude::*;
use vstd::string::*;
use crate::error::{ErrorView, XlsxError};
use crate::text::{
    chars_of, copy_chars, join3, parse_u32, parse_usize, same_chars, same_text, text_views, u32_of,
    usize_of, utf8,
};
use crate::xml::{
    attribute_text, elements, elements_among, events_of, tag_views, text_of_attribute, xml_events,
    Tag, TagView,
};

verus! {

// ---- packages -----------------------------------------------------------------------------

/// A file inside a package.
pub struct Part {
    pub name: String,
    pub content: Vec<u8>,
}

/// The view of a file inside a package.
pub struct PartView {
    pub name: Seq<char>,
    pub content: Seq<u8>,
}

impl View for Part {
    type V = PartView;

    open spec fn view(&self) -> PartView {
        PartView { name: self.name@, content: self.content@ }
    }
}

/// The views of a list of files.
pub open spec fn part_views(parts: Seq<Part>) -> Seq<PartView> {
    Seq::new(parts.len(), |i: int| parts[i]@)
}

/// The place of the first file called `name`, from the `i`-th on.
pub open spec fn part_from(parts: Seq<PartView>, name: Seq<char>, i: int) -> Option<int>
    decreases parts.len() - i,
{
    if i < 0 || i >= parts.len() {
        None
    } else if parts[i].name == name {
        Some(i)
    } else {
        part_from(parts, name, i + 1)
    }
}

/// The place of the first file called `name`.
pub open spec fn part_at(parts: Seq<PartView>, name: Seq<char>) -> Option<int> {
    part_from(parts, name, 0)
}

/// What the first file called `name` holds.
pub open spec fn part_content(parts: Seq<PartView>, name: Seq<char>) -> Option<Seq<u8>> {
    match part_at(parts, name) {
        Some(i) => Some(parts[i].content),
        None => None,
    }
}

/// What `part_from` means: the place found has the name, and no place before it does.
pub proof fn lemma_part_from(parts: Seq<PartView>, name: Seq<char>, i: int)
    requires
        0 <= i,
    ensures
        match part_from(parts, name, i) {
            Some(p) => i <= p < parts.len() && parts[p].name == name && (forall|k: int|
                i <= k < p ==> #[trigger] parts[k].name != name),
            None => forall|k: int| i <= k < parts.len() ==> #[trigger] parts[k].name != name,
        },
    decreases parts.len() - i,
{
    if i < parts.len() && parts[i].name != name {
        lemma_part_from(parts, name, i + 1);
    }
}

/// The place of the first file called `name`.
pub fn find_part(parts: &[Part], name: &str) -> (place: Option<usize>)
    ensures
        crate::bytes::position(place) == part_at(part_views(parts@), name@),
        place matches Some(i) ==> i < parts@.len(),
{
    let ghost all = part_views(parts@);
    let mut i: usize = 0;
    while i < parts.len()
        invariant
            i <= parts@.len(),
            all == part_views(parts@),
            part_at(all, name@) == part_from(all, name@, i as int),
        decreases parts@.len() - i,
    {
        assert(all[i as int] == parts@[i as int]@);
        if same_text(parts[i].name.as_str(), name) {
            return Some(i);
        }
        i += 1;
    }
    None
}

// ---- sheets -------------------------------------------------------------------------------

/// The names of the sheets that the tags `sheets` stand for, in their order.
pub open spec fn sheet_names(sheets: Seq<TagView>) -> Seq<Seq<char>>
    decreases sheets.len(),
{
    if sheets.len() == 0 {
        Seq::empty()
    } else {
        let before = sheet_names(sheets.drop_last());
        match attribute_text(sheets.last(), "name"@) {
            Some(name) => before.push(name),
            None => before,
        }
    }
}

/// The names of the sheets of a workbook.
pub open spec fn names_in_workbook(workbook: Seq<u8>) -> Seq<Seq<char>> {
    sheet_names(elements(xml_events(workbook), utf8("sheet"@)))
}

/// The names of the sheets in a package, or the error for a package without a workbook.
pub open spec fn scanned(parts: Seq<PartView>) -> Result<Seq<Seq<char>>, ErrorView> {
    match part_content(parts, "xl/workbook.xml"@) {
        None => Err(ErrorView::FileNotFound("xl/workbook.xml"@)),
        Some(workbook) => Ok(names_in_workbook(workbook)),
    }
}

/// The names of the sheets that the tags `sheets` stand for.
pub fn names_of_sheets(sheets: &[&Tag]) -> (names: Vec<String>)
    ensures
        text_views(names@) == sheet_names(tag_views(sheets@)),
        names@.len() <= sheets@.len(),
{
    let ghost all = tag_views(sheets@);
    let mut names: Vec<String> = Vec::new();
    let mut i: usize = 0;
    assert(text_views(names@) =~= sheet_names(all.take(0)));
    while i < sheets.len()
        invariant
            i <= sheets@.len(),
            all == tag_views(sheets@),
            text_views(names@) == sheet_names(all.take(i as int)),
            names@.len() <= i,
        decreases sheets@.len() - i,
    {
        let ghost next = all.take(i + 1);
        assert(next.drop_last() =~= all.take(i as int));
        assert(next.last() == sheets@[i as int]@);
        let ghost before = text_views(names@);
        if let Some(name) = text_of_attribute(sheets[i], "name") {
            names.push(name);
            assert(text_views(names@) =~= before.push(name@));
        }
        i += 1;
    }
    assert(all.take(i as int) =~= all);
    names
}

/// The names of the sheets in a package, in the order of the workbook.
pub fn scan(parts: &[Part]) -> (names: Result<Vec<String>, XlsxError>)
    ensures
        match names {
            Ok(n) => scanned(part_views(parts@)) == Ok::<Seq<Seq<char>>, ErrorView>(
                text_views(n@),
            ),
            Err(e) => scanned(part_views(parts@)) == Err::<Seq<Seq<char>>, ErrorView>(e@),
        },
{
    match find_part(parts, "xl/workbook.xml") {
        None => Err(XlsxError::FileNotFound { file: "xl/workbook.xml".to_owned() }),
        Some(i) => {
            assert(part_views(parts@)[i as int] == parts@[i as int]@);
            let events = events_of(parts[i].content.as_slice());
            let sheets = elements_among(events.as_slice(), "sheet");
            Ok(names_of_sheets(sheets.as_slice()))
        },
    }
}

/// The first place of `name` in a list, from the `i`-th place on.
pub open spec fn name_from(names: Seq<Seq<char>>, name: Seq<char>, i: int) -> Option<int>
    decreases names.len() - i,
{
    if i < 0 || i >= names.len() {
        None
    } else if names[i] == name {
        Some(i)
    } else {
        name_from(names, name, i + 1)
    }
}

/// The first place of `name` in a list.
pub fn find_name(names: &[String], name: &str) -> (place: Option<usize>)
    ensures
        crate::bytes::position(place) == name_from(text_views(names@), name@, 0),
        place matches Some(i) ==> i < names@.len(),
        place is Some <==> text_views(names@).contains(name@),
{
    let ghost all = text_views(names@);
    let mut i: usize = 0;
    while i < names.len()
        invariant
            i <= names@.len(),
            all == text_views(names@),
            name_from(all, name@, 0) == name_from(all, name@, i as int),
            forall|k: int| 0 <= k < i ==> all[k] != name@,
        decreases names@.len() - i,
    {
        assert(all[i as int] == names@[i as int]@);
        if same_text(names[i].as_str(), name) {
            assert(all.contains(name@));
            return Some(i);
        }
        i += 1;
    }
    None
}

/// The number of the last row that the tags `rows` name: each that holds a number replaces the one
/// before it.
pub open spec fn last_row_of(rows: Seq<TagView>) -> u32
    decreases rows.len(),
{
    if rows.len() == 0 {
        0
    } else {
        let before = last_row_of(rows.drop_last());
        match attribute_text(rows.last(), "r"@) {
            Some(text) => match u32_of(text) {
                Some(number) => number,
                None => before,
            },
            None => before,
        }
    }
}

/// The number of the last row that the tags `rows` name.
pub fn last_row_among(rows: &[&Tag]) -> (last: u32)
    ensures
        last == last_row_of(tag_views(rows@)),
{
    let ghost all = tag_views(rows@);
    let mut last: u32 = 0;
    let mut i: usize = 0;
    while i < rows.len()
        invariant
            i <= rows@.len(),
            all == tag_views(rows@),
            last == last_row_of(all.take(i as int)),
        decreases rows@.len() - i,
    {
        let ghost next = all.take(i + 1);
        assert(next.drop_last() =~= all.take(i as int));
        assert(next.last() == rows@[i as int]@);
        if let Some(text) = text_of_attribute(rows[i], "r") {
            if let Ok(number) = parse_u32(text.as_str()) {
                last = number;
            }
        }
        i += 1;
    }
    assert(all.take(i as int) =~= all);
    last
}

// ---- what identifies a sheet --------------------------------------------------------------

/// The larger of two numbers.
pub open spec fn larger(a: u32, b: u32) -> u32 {
    if b > a {
        b
    } else {
        a
    }
}

/// The number that `text` writes, and zero where it writes none.
pub open spec fn number_or_zero(text: Seq<char>) -> u32 {
    match u32_of(text) {
        Some(n) => n,
        None => 0,
    }
}

/// The largest `sheetId` of the tags `sheets`.
pub open spec fn largest_sheet_id(sheets: Seq<TagView>) -> u32
    decreases sheets.len(),
{
    if sheets.len() == 0 {
        0
    } else {
        let before = largest_sheet_id(sheets.drop_last());
        match attribute_text(sheets.last(), "sheetId"@) {
            Some(text) => larger(before, number_or_zero(text)),
            None => before,
        }
    }
}

/// The number of a relationship: what stands behind `rId`.
pub open spec fn relation_number(id: Seq<char>) -> u32 {
    if id.len() >= 3 && id.take(3) == "rId"@ {
        number_or_zero(id.skip(3))
    } else {
        0
    }
}

/// The largest number of the relationships that the tags `relations` stand for.
pub open spec fn largest_relation(relations: Seq<TagView>) -> u32
    decreases relations.len(),
{
    if relations.len() == 0 {
        0
    } else {
        let before = largest_relation(relations.drop_last());
        match attribute_text(relations.last(), "Id"@) {
            Some(id) => larger(before, relation_number(id)),
            None => before,
        }
    }
}

/// The number of a sheet's file: what stands between `xl/worksheets/sheet` and `.xml`.
pub open spec fn file_number(path: Seq<char>) -> Option<usize> {
    let head = "xl/worksheets/sheet"@;
    let tail = ".xml"@;
    if path.len() >= head.len() + tail.len() && path.take(head.len() as int) == head && path.skip(
        path.len() - tail.len(),
    ) == tail {
        usize_of(path.subrange(head.len() as int, path.len() - tail.len()))
    } else {
        None
    }
}

/// The largest number of a sheet's file among `paths`.
pub open spec fn largest_file(paths: Seq<Seq<char>>) -> usize
    decreases paths.len(),
{
    if paths.len() == 0 {
        0
    } else {
        let before = largest_file(paths.drop_last());
        match file_number(paths.last()) {
            Some(n) => if n > before {
                n
            } else {
                before
            },
            None => before,
        }
    }
}

/// The path of the file of a sheet.
pub open spec fn sheet_file(number: nat) -> Seq<char> {
    "xl/worksheets/sheet"@ + crate::text::decimal(number) + ".xml"@
}

/// The number that `text` writes, and zero where it writes none.
fn number_of_text(text: &str) -> (number: u32)
    ensures
        number == number_or_zero(text@),
{
    match parse_u32(text) {
        Ok(n) => n,
        Err(_) => 0,
    }
}

/// The largest `sheetId` of the tags `sheets`.
pub fn largest_sheet_id_among(sheets: &[&Tag]) -> (largest: u32)
    ensures
        largest == largest_sheet_id(tag_views(sheets@)),
{
    let ghost all = tag_views(sheets@);
    let mut largest: u32 = 0;
    let mut i: usize = 0;
    while i < sheets.len()
        invariant
            i <= sheets@.len(),
            all == tag_views(sheets@),
            largest == largest_sheet_id(all.take(i as int)),
        decreases sheets@.len() - i,
    {
        let ghost next = all.take(i + 1);
        assert(next.drop_last() =~= all.take(i as int));
        assert(next.last() == sheets@[i as int]@);
        if let Some(text) = text_of_attribute(sheets[i], "sheetId") {
            let number: u32 = number_of_text(text.as_str());
            if number > largest {
                largest = number;
            }
        }
        i += 1;
    }
    assert(all.take(i as int) =~= all);
    largest
}

/// The number of a relationship.
fn relation_number_of(id: &str) -> (number: u32)
    ensures
        number == relation_number(id@),
{
    let chars = chars_of(id);
    if chars.len() < 3 {
        return 0;
    }
    let head = copy_chars(chars.as_slice(), 0, 3);
    assert(head@ =~= id@.take(3));
    let prefix = chars_of("rId");
    if !same_chars(head.as_slice(), prefix.as_slice()) {
        return 0;
    }
    let digits = id.substring_char(3, chars.len());
    assert(digits@ =~= id@.skip(3));
    number_of_text(digits)
}

/// The largest number of the relationships that the tags `relations` stand for.
pub fn largest_relation_among(relations: &[&Tag]) -> (largest: u32)
    ensures
        largest == largest_relation(tag_views(relations@)),
{
    let ghost all = tag_views(relations@);
    let mut largest: u32 = 0;
    let mut i: usize = 0;
    while i < relations.len()
        invariant
            i <= relations@.len(),
            all == tag_views(relations@),
            largest == largest_relation(all.take(i as int)),
        decreases relations@.len() - i,
    {
        let ghost next = all.take(i + 1);
        assert(next.drop_last() =~= all.take(i as int));
        assert(next.last() == relations@[i as int]@);
        if let Some(id) = text_of_attribute(relations[i], "Id") {
            let number: u32 = relation_number_of(id.as_str());
            if number > largest {
                largest = number;
            }
        }
        i += 1;
    }
    assert(all.take(i as int) =~= all);
    largest
}

/// The number of a sheet's file.
pub fn file_number_of(path: &str) -> (number: Option<usize>)
    ensures
        number == file_number(path@),
{
    let chars = chars_of(path);
    let head = chars_of("xl/worksheets/sheet");
    let tail = chars_of(".xml");
    if chars.len() < head.len() || chars.len() - head.len() < tail.len() {
        return None;
    }
    let end: usize = chars.len() - tail.len();
    let first = copy_chars(chars.as_slice(), 0, head.len());
    let last = copy_chars(chars.as_slice(), end, chars.len());
    assert(first@ =~= path@.take(head@.len() as int));
    assert(last@ =~= path@.skip(end as int));
    if !same_chars(first.as_slice(), head.as_slice()) || !same_chars(
        last.as_slice(),
        tail.as_slice(),
    ) {
        return None;
    }
    let digits = path.substring_char(head.len(), end);
    parse_usize(digits)
}

/// The path of the file of a sheet.
pub fn sheet_file_path(number: usize) -> (path: String)
    ensures
        path@ == sheet_file(number as nat),
{
    let digits = crate::text::decimal_text(number as u64);
    join3("xl/worksheets/sheet", digits.as_str(), ".xml")
}

} // verus!
