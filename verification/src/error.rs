//! The errors of the editor.

use vstd::prelude::*;

verus! {

/// `regex::Error`, carried through unread.
#[verifier::external_type_specification]
#[verifier::external_body]
pub struct ExRegexError(regex::Error);

/// What can go wrong while a workbook is edited.
#[derive(Debug)]
pub enum XlsxError {
    /// A number in the workbook is not one.
    Parse(std::num::ParseIntError),
    /// A part of the workbook is not UTF-8.
    Utf8(std::str::Utf8Error),
    /// A column name does not make a pattern.
    Regex(regex::Error),
    FileNotFound { file: String },
    XmlTagNotFound { tag: String },
    SheetNotFound { name: String },
    SheetAlreadyExists { name: String },
    InvalidCoordinate { coord: String },
    InvalidRange { range: String },
    MalformedXmlTag { tag: String },
    NoColumnsSupplied,
    InvalidRangeOrder,
    AttributeNotFound { attribute: String },
}

/// An error, with its text as a sequence of characters. What an outside error holds is left out.
pub enum ErrorView {
    Parse,
    Utf8,
    Regex,
    FileNotFound(Seq<char>),
    XmlTagNotFound(Seq<char>),
    SheetNotFound(Seq<char>),
    SheetAlreadyExists(Seq<char>),
    InvalidCoordinate(Seq<char>),
    InvalidRange(Seq<char>),
    MalformedXmlTag(Seq<char>),
    NoColumnsSupplied,
    InvalidRangeOrder,
    AttributeNotFound(Seq<char>),
}

impl View for XlsxError {
    type V = ErrorView;

    open spec fn view(&self) -> ErrorView {
        match *self {
            XlsxError::Parse(_) => ErrorView::Parse,
            XlsxError::Utf8(_) => ErrorView::Utf8,
            XlsxError::Regex(_) => ErrorView::Regex,
            XlsxError::FileNotFound { file } => ErrorView::FileNotFound(file@),
            XlsxError::XmlTagNotFound { tag } => ErrorView::XmlTagNotFound(tag@),
            XlsxError::SheetNotFound { name } => ErrorView::SheetNotFound(name@),
            XlsxError::SheetAlreadyExists { name } => ErrorView::SheetAlreadyExists(name@),
            XlsxError::InvalidCoordinate { coord } => ErrorView::InvalidCoordinate(coord@),
            XlsxError::InvalidRange { range } => ErrorView::InvalidRange(range@),
            XlsxError::MalformedXmlTag { tag } => ErrorView::MalformedXmlTag(tag@),
            XlsxError::NoColumnsSupplied => ErrorView::NoColumnsSupplied,
            XlsxError::InvalidRangeOrder => ErrorView::InvalidRangeOrder,
            XlsxError::AttributeNotFound { attribute } => ErrorView::AttributeNotFound(attribute@),
        }
    }
}

/// A result, with its error as a sequence of characters.
pub open spec fn result_view<T>(result: Result<T, XlsxError>) -> Result<T, ErrorView> {
    match result {
        Ok(value) => Ok(value),
        Err(e) => Err(e@),
    }
}

} // verus!
