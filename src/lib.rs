//! Spreadsheet-style column labels for signed 64-bit indices, and a small
//! helper that joins items into a readable phrase.
pub mod column;
pub mod phrase;
