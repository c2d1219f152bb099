//! Merged cells, and clearing a worksheet.

use vstd::prelude::*;
use vstd::string::*;
use crate::bytes::{find, find_from, insert, insert_bytes, replace, replace_bytes};
use crate::error::{ErrorView, XlsxError};
use crate::markup::{count_bumped, lemma_count_bumped, try_bump_count};
use crate::sheet::{edited, reached, refused, Sheet, SheetOutcome, SheetView};
use crate::text::{join3, locate, utf8};

verus! {

/// The tag for the merged range `range`.
pub open spec fn merge_tag(range: Seq<char>) -> Seq<char> {
    "<mergeCell ref=\""@ + range + "\"/>"@
}

/// What merging the cells of `range` makes of a sheet: the range goes to the end of the list of
/// merged ranges, whose count grows, and a sheet without such a list gets one behind its data.
/// `None` stands for a count without a quote behind it, or one that cannot grow.
pub open spec fn cells_merged(sheet: SheetView, range: Seq<char>) -> Option<SheetOutcome> {
    match find(sheet.xml, utf8("</sheetData>"@)) {
        None => Some(refused(sheet, ErrorView::XmlTagNotFound("</sheetData>"@))),
        Some(data_end) => match find(sheet.xml, utf8("<mergeCells"@)) {
            Some(pos) => match count_bumped(sheet.xml, "<mergeCells"@, "count=\""@) {
                None => None,
                Some(Err(e)) => Some(refused(sheet, e)),
                Some(Ok(bumped)) => match find_from(bumped, utf8("</mergeCells>"@), pos) {
                    None => Some(
                        refused(
                            SheetView { xml: bumped, ..sheet },
                            ErrorView::XmlTagNotFound("</mergeCells>"@),
                        ),
                    ),
                    Some(end) => Some(edited(sheet, insert(bumped, end, utf8(merge_tag(range))))),
                },
            },
            None => Some(
                edited(
                    sheet,
                    insert(
                        sheet.xml,
                        data_end + utf8("</sheetData>"@).len(),
                        utf8("<mergeCells count=\"1\">"@ + merge_tag(range) + "</mergeCells>"@),
                    ),
                ),
            ),
        },
    }
}

/// What clearing makes of a sheet: nothing is left between the tags of its data, and no row counts
/// as the last. `None` stands for data that end before they start.
pub open spec fn sheet_cleared(sheet: SheetView) -> Option<SheetOutcome> {
    match find(sheet.xml, utf8("<sheetData"@)) {
        None => Some(refused(sheet, ErrorView::XmlTagNotFound("<sheetData>"@))),
        Some(start) => match find_from(sheet.xml, utf8(">"@), start) {
            None => Some(refused(sheet, ErrorView::MalformedXmlTag("<sheetData>"@))),
            Some(bracket) => match find(sheet.xml, utf8("</sheetData>"@)) {
                None => Some(refused(sheet, ErrorView::XmlTagNotFound("</sheetData>"@))),
                Some(end) => {
                    let open_end = bracket + utf8(">"@).len();
                    if open_end > end {
                        None
                    } else {
                        Some(
                            edited(
                                SheetView { last_row: 0, ..sheet },
                                replace(sheet.xml, open_end, end, Seq::empty()),
                            ),
                        )
                    }
                },
            },
        },
    }
}

impl Sheet {
    /// Merges the cells of `range`, or gives `None` where the count of the merged ranges has no
    /// quote behind it or cannot grow.
    pub(crate) fn run_merge_cells(&mut self, range: &str) -> (result: Option<
        Result<(), XlsxError>,
    >)
        ensures
            reached(cells_merged(old(self)@, range@), final(self)@, result),
    {
        let data_end: usize = match locate(self.xml.as_slice(), "</sheetData>", 0) {
            None => {
                return Some(Err(XlsxError::XmlTagNotFound { tag: "</sheetData>".to_owned() }));
            },
            Some(at) => at,
        };
        let tag = join3("<mergeCell ref=\"", range, "\"/>");
        match locate(self.xml.as_slice(), "<mergeCells", 0) {
            Some(pos) => {
                proof {
                    lemma_count_bumped(self.xml@, "<mergeCells"@, "count=\""@);
                }
                match try_bump_count(&mut self.xml, "<mergeCells", "count=\"") {
                    None => {
                        return None;
                    },
                    Some(Err(e)) => {
                        return Some(Err(e));
                    },
                    Some(Ok(())) => {},
                }
                match locate(self.xml.as_slice(), "</mergeCells>", pos) {
                    None => Some(
                        Err(XlsxError::XmlTagNotFound { tag: "</mergeCells>".to_owned() }),
                    ),
                    Some(end) => {
                        insert_bytes(&mut self.xml, end, tag.as_str().as_bytes());
                        Some(Ok(()))
                    },
                }
            },
            None => {
                let block = join3("<mergeCells count=\"1\">", tag.as_str(), "</mergeCells>");
                let at: usize = data_end + "</sheetData>".len();
                insert_bytes(&mut self.xml, at, block.as_str().as_bytes());
                Some(Ok(()))
            },
        }
    }

    /// Takes all rows out, or gives `None` where the data end before they start.
    pub(crate) fn run_clear_sheet(&mut self) -> (result: Option<Result<(), XlsxError>>)
        ensures
            reached(sheet_cleared(old(self)@), final(self)@, result),
    {
        let start: usize = match locate(self.xml.as_slice(), "<sheetData", 0) {
            None => {
                return Some(Err(XlsxError::XmlTagNotFound { tag: "<sheetData>".to_owned() }));
            },
            Some(at) => at,
        };
        let open_end: usize = match locate(self.xml.as_slice(), ">", start) {
            None => {
                return Some(Err(XlsxError::MalformedXmlTag { tag: "<sheetData>".to_owned() }));
            },
            Some(at) => at + ">".len(),
        };
        let end: usize = match locate(self.xml.as_slice(), "</sheetData>", 0) {
            None => {
                return Some(Err(XlsxError::XmlTagNotFound { tag: "</sheetData>".to_owned() }));
            },
            Some(at) => at,
        };
        if open_end > end {
            return None;
        }
        let empty: Vec<u8> = Vec::new();
        replace_bytes(&mut self.xml, open_end, end, empty.as_slice());
        self.last_row = 0;
        Some(Ok(()))
    }
}

} // verus!
