//! Errors of the worksheet writer.
use vstd::prelude::*;

verus! {

#[verifier::external_type_specification]
#[verifier::external_body]
pub struct ExIoError(std::io::Error);

#[verifier::external_type_specification]
#[verifier::external_body]
pub struct ExZipError(zip::result::ZipError);

/// What can go wrong while a workbook is written.
#[derive(Debug)]
pub enum XlsxError {
    /// Writing bytes into the open archive entry failed.
    Io(std::io::Error),
    /// The archive refused to open an entry or to be finalised.
    Zip(zip::result::ZipError),
    /// A row number past the largest one whose digits fit the digit buffer.
    RowLimit,
    /// A cell reference longer than the reference buffer holds.
    CellRefTooLong,
    /// More worksheets than their 16-bit numbering can tell apart.
    SheetLimit,
}

} // verus!
