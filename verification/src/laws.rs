//! What holds of the editor as a whole.

pub mod adding;
pub mod bodies;
pub mod brushing;
pub mod cells;
pub mod columns;
pub mod commuting;
pub mod counting;
pub mod ensuring;
pub mod events;
pub mod formats;
pub mod growing;
pub mod holding;
pub mod listing;
pub mod marks;
pub mod merging;
pub mod naming;
pub mod neighbours;
pub mod numerals;
pub mod order;
pub mod outcomes;
pub mod painted;
pub mod picture;
pub mod pieces;
pub mod placing;
pub mod queries;
pub mod ranges;
pub mod restyling;
pub mod rows;
pub mod saving;
pub mod searching;
pub mod shapes;
pub mod styling;
pub mod tables;
pub mod tagging;
pub mod tidy;
pub mod views;
pub mod words;
pub mod writing;
