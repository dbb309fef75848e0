//! The zip archive that worksheet parts are written into, and the calls into
//! the zip crate that the writer makes.
use std::io::{Cursor, Write};
use vstd::prelude::*;
use zip::result::ZipError;
use zip::ZipWriter;

verus! {

#[verifier::external_type_specification]
#[verifier::external_body]
#[verifier::reject_recursive_types(T)]
pub struct ExCursor<T>(Cursor<T>);

/// An archive built in memory by `zip::ZipWriter`.
///
/// Opaque to the verifier: it refuses to declare `ZipWriter` with the
/// `Write + Seek` bounds of its type parameter.
#[verifier::external_body]
pub struct Archive {
    inner: ZipWriter<Cursor<Vec<u8>>>,
}

/// The names of the archive's entries, in the order they were opened.
pub uninterp spec fn entry_names(a: Archive) -> Seq<Seq<u8>>;

/// The uncompressed bytes written so far into the archive's open entry.
pub uninterp spec fn entry_bytes(a: Archive) -> Seq<u8>;

/// Whether every byte is 7-bit ASCII, so that the bytes are their own UTF-8
/// text.
pub open spec fn is_ascii_bytes(s: Seq<u8>) -> bool {
    forall|i: int| 0 <= i < s.len() ==> #[trigger] s[i] < 128
}

impl Archive {
    /// Relies on `zip::ZipWriter::new`: starts an empty archive at the
    /// stream's position.
    #[verifier::external_body]
    pub(crate) fn create(out: Cursor<Vec<u8>>) -> (r: Archive)
        ensures
            entry_names(r) == Seq::<Seq<u8>>::empty(),
    {
        Archive { inner: ZipWriter::new(out) }
    }

    /// Relies on `zip::ZipWriter::start_file`: opens a new Deflate-compressed
    /// entry named `name`, at level `level` and with the zip64 flag set to
    /// `large`, and makes it the target of later writes. The name is taken as
    /// UTF-8 text, so an ASCII name is kept byte for byte; the method is
    /// fixed to Deflate, the one this writer uses.
    #[verifier::external_body]
    pub(crate) fn start_deflated_entry(&mut self, name: &[u8], level: i64, large: bool) -> (r: Result<(), ZipError>)
        ensures
            r is Ok ==> entry_bytes(*final(self)) == Seq::<u8>::empty(),
            r is Ok && is_ascii_bytes(name@) ==> entry_names(*final(self)) == entry_names(*old(self)).push(name@),
    {
        let options = zip::write::SimpleFileOptions::default()
            .compression_method(zip::CompressionMethod::Deflated)
            .compression_level(Some(level))
            .large_file(large);
        self.inner.start_file(String::from_utf8_lossy(name), options)
    }

    /// Relies on `std::io::Write::write_all` of `zip::ZipWriter`: hands all
    /// of `bytes` to the open entry, or fails.
    #[verifier::external_body]
    pub(crate) fn write_entry(&mut self, bytes: &[u8]) -> (r: Result<(), std::io::Error>)
        ensures
            r is Ok ==> entry_bytes(*final(self)) == entry_bytes(*old(self)) + bytes@,
            r is Ok ==> entry_names(*final(self)) == entry_names(*old(self)),
    {
        self.inner.write_all(bytes)
    }

    /// Relies on `zip::ZipWriter::finish`: closes the last entry, writes the
    /// central directory and hands the stream back.
    #[verifier::external_body]
    pub(crate) fn finish(self) -> (r: Result<Cursor<Vec<u8>>, ZipError>) {
        self.inner.finish()
    }
}

} // verus!
