//! The workbook: owns the archive, numbers its worksheets and finalises it.
use crate::archive::{entry_bytes, entry_names, Archive};
use crate::error::XlsxError;
use crate::sheet::{sheet_part, Sheet};
use crate::xml::SHEET_HEADER;
use std::io::Cursor;
use vstd::prelude::*;
use vstd::string::StringSliceAdditionalSpecFns;

verus! {

/// A workbook written into an in-memory zip archive, one worksheet at a time.
pub struct WorkBook {
    zip_writer: Archive,
    num_of_sheets: u16,
}

impl WorkBook {
    /// Number of worksheets opened so far.
    pub closed spec fn sheet_count(&self) -> nat {
        self.num_of_sheets as nat
    }

    /// The names of the archive's entries, in the order they were opened.
    pub closed spec fn entries(&self) -> Seq<Seq<u8>> {
        entry_names(self.zip_writer)
    }

    /// Starts a workbook whose archive is written into `writer`.
    pub fn new(writer: Cursor<Vec<u8>>) -> (r: Self)
        ensures
            r.sheet_count() == 0,
            r.entries().len() == 0,
    {
        WorkBook { zip_writer: Archive::create(writer), num_of_sheets: 0 }
    }

    /// Opens the next worksheet, numbered one more than the last, under
    /// `name`. The sheet borrows the archive until it is dropped.
    pub fn get_worksheet(&mut self, name: String) -> (r: Result<Sheet<'_>, XlsxError>)
        ensures
            old(self).sheet_count() == u16::MAX ==> {
                &&& r is Err && r->Err_0 is SheetLimit
                &&& final(self).sheet_count() == old(self).sheet_count()
            },
            old(self).sheet_count() < u16::MAX ==> {
                &&& final(self).sheet_count() == old(self).sheet_count() + 1
                &&& r is Ok ==> {
                    let s = r->Ok_0;
                    &&& s.wf()
                    &&& !s.is_closed()
                    &&& s.rows().len() == 0
                    &&& s.buffered().len() == 0
                    &&& entry_names(s.archive()) == old(self).entries().push(sheet_part(old(self).sheet_count() + 1))
                    &&& entry_bytes(s.archive()) == SHEET_HEADER.spec_bytes()
                    &&& s.part_name() == sheet_part(old(self).sheet_count() + 1)
                    &&& s.sheet_name() == name
                }
                &&& r is Err ==> r->Err_0 is Zip || r->Err_0 is Io
            },
    {
        if self.num_of_sheets == u16::MAX {
            return Err(XlsxError::SheetLimit);
        }
        self.num_of_sheets = self.num_of_sheets + 1;
        Sheet::new(name, self.num_of_sheets, &mut self.zip_writer)
    }

    /// Finalises the archive (central directory of all entries written) and
    /// hands back the stream that holds it.
    pub fn finish(self) -> (r: Result<Cursor<Vec<u8>>, XlsxError>)
        ensures
            r is Err ==> r->Err_0 is Zip,
    {
        match self.zip_writer.finish() {
            Ok(out) => Ok(out),
            Err(e) => Err(XlsxError::Zip(e)),
        }
    }
}

} // verus!
