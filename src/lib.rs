//! Streaming writer of worksheet XML parts inside a zip-packaged spreadsheet.
pub mod encode;
pub mod error;
pub mod sheet;
pub mod archive;
pub mod xml;
pub mod row;
pub mod workbook;
