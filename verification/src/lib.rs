pub mod added;
pub mod brush;
pub mod bytes;
pub mod coord;
pub mod edit;
pub mod editor;
pub mod error;
pub mod frame;
pub mod laws;
pub mod markup;
pub mod merge;
pub mod package;
pub mod paint;
pub mod pattern;
pub mod query;
pub mod sheet;
pub mod styles;
pub mod tags;
pub mod text;
pub mod workbook;
pub mod xml;
