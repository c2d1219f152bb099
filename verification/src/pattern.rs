//! Regular expressions.

use vstd::prelude::*;
use crate::bytes::occurs_at;
use crate::coord::{
    after_colon, before_colon, is_cell_name, is_col_range, is_rect_range, is_row_range,
};
use crate::text::{decimal, utf8};

verus! {

/// One cell, such as `B2`.
pub const CELL_PATTERN: &'static str = "^([A-Za-z]+)([0-9]+)$";

/// A rectangle of cells, such as `A1:C10`.
pub const RECT_PATTERN: &'static str = "^([A-Za-z]+[0-9]+):([A-Za-z]+[0-9]+)$";

/// A whole column, such as `D:`.
pub const COL_PATTERN: &'static str = "^([A-Za-z]+):$";

/// A whole row, such as `5:`.
pub const ROW_PATTERN: &'static str = "^([0-9]+):$";

/// One match of a pattern: where it starts, in bytes, and the text that it covers.
pub struct Match {
    pub start: usize,
    pub text: String,
}

/// The view of a match.
pub struct MatchView {
    pub start: int,
    pub text: Seq<char>,
}

impl View for Match {
    type V = MatchView;

    open spec fn view(&self) -> MatchView {
        MatchView { start: self.start as int, text: self.text@ }
    }
}

/// The views of a list of matches.
pub open spec fn match_views(list: Seq<Match>) -> Seq<MatchView> {
    Seq::new(list.len(), |i: int| list[i]@)
}

/// The matches of `pattern` in `text`, from left to right, or `None` if it is not a pattern.
pub uninterp spec fn regex_matches(pattern: Seq<char>, text: Seq<char>) -> Option<Seq<MatchView>>;

/// The pattern for the references to the cells of row `row`.
pub open spec fn row_cells_pattern(row: nat) -> Seq<char> {
    " r=\"([A-Z]+)"@ + decimal(row) + "\""@
}

/// The pattern for the tags of the cells in the column `column`.
pub open spec fn column_cells_pattern(column: Seq<char>) -> Seq<char> {
    "<c\\b[^>]*\\br=\""@ + column + "[0-9]+\"[^>]*>"@
}

/// Each match stands in the text where it says it does, and none reaches into the next.
pub open spec fn matches_in_order(matches: Seq<MatchView>, text: Seq<char>) -> bool {
    &&& forall|i: int|
        0 <= i < matches.len() ==> occurs_at(
            utf8(text),
            utf8(#[trigger] matches[i].text),
            matches[i].start,
        )
    &&& forall|i: int, j: int|
        0 <= i < j < matches.len() ==> #[trigger] matches[i].start + utf8(matches[i].text).len()
            <= #[trigger] matches[j].start
}

/// Calls `Regex::new` and `Regex::find_iter`: the successive matches, none of which reaches into
/// the next, each with its byte offset and its text; a text that is not a pattern is refused.
#[verifier::external_body]
pub(crate) fn find_matches(pattern: &str, text: &str) -> (found: Result<Vec<Match>, regex::Error>)
    ensures
        match found {
            Ok(list) => regex_matches(pattern@, text@) == Some(match_views(list@))
                && matches_in_order(match_views(list@), text@),
            Err(_) => regex_matches(pattern@, text@) is None,
        },
{
    let re = regex::Regex::new(pattern)?;
    let found = re.find_iter(text);
    Ok(found.map(|m| Match { start: m.start(), text: m.as_str().to_owned() }).collect())
}

/// Calls `Regex::new` and `Regex::captures` with one of the four patterns for ranges: whether the
/// text as a whole has the shape of the pattern, and the text of each group if it has.
#[verifier::external_body]
pub(crate) fn range_captures(pattern: &str, text: &str) -> (groups: Option<Vec<String>>)
    requires
        pattern@ == CELL_PATTERN@ || pattern@ == RECT_PATTERN@ || pattern@ == COL_PATTERN@
            || pattern@ == ROW_PATTERN@,
    ensures
        pattern@ == CELL_PATTERN@ ==> (groups is Some <==> is_cell_name(text@)),
        pattern@ == RECT_PATTERN@ ==> {
            &&& groups is Some <==> is_rect_range(text@)
            &&& groups matches Some(g) ==> g@.len() == 3 && g@[1]@ == before_colon(text@)
                && g@[2]@ == after_colon(text@)
        },
        pattern@ == COL_PATTERN@ ==> {
            &&& groups is Some <==> is_col_range(text@)
            &&& groups matches Some(g) ==> g@.len() == 2 && g@[1]@ == before_colon(text@)
        },
        pattern@ == ROW_PATTERN@ ==> {
            &&& groups is Some <==> is_row_range(text@)
            &&& groups matches Some(g) ==> g@.len() == 2 && g@[1]@ == before_colon(text@)
        },
{
    let re = regex::Regex::new(pattern).unwrap();
    let groups = re.captures(text)?;
    Some(groups.iter().map(|g| g.unwrap().as_str().to_owned()).collect())
}

} // verus!
