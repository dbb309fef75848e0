//! The streaming worksheet writer: rows are encoded into a buffer that is
//! handed to the archive entry every `FLUSH_EVERY` rows and on close.
use crate::archive::{entry_bytes, entry_names, is_ascii_bytes, Archive};
use crate::encode::{digits_of, num_to_bytes, MAX_ROW};
use crate::error::XlsxError;
use crate::row::encode_row;
use crate::xml::{
    cells_of, lemma_rows_between_concat, lemma_rows_between_prefix, lemma_rows_between_push, refs_fit,
    row_xml, rows_between, rows_xml, sheet_xml, SHEET_FOOTER, SHEET_HEADER,
};
use vstd::prelude::*;
use vstd::string::StringSliceAdditionalSpecFns;

verus! {

/// The buffer is handed to the archive after every row whose number is a
/// multiple of this.
pub const FLUSH_EVERY: u32 = 100_000;

/// Deflate level of worksheet entries: fastest.
pub const COMPRESSION_LEVEL: i64 = 1;

pub const PART_PREFIX: &'static str = "xl/worksheets/sheet";

pub const PART_SUFFIX: &'static str = ".xml";

/// Number of rows already handed to the archive when `n` rows have been
/// written to an open sheet: the last multiple of `FLUSH_EVERY`.
pub open spec fn last_flush(n: nat) -> nat {
    (n - n % (FLUSH_EVERY as nat)) as nat
}

/// Decimal form of `n`, with `0` for zero.
pub open spec fn decimal(n: nat) -> Seq<u8> {
    if n == 0 {
        seq![48u8]
    } else {
        digits_of(n)
    }
}

/// Archive path of the worksheet part numbered `id`.
pub open spec fn sheet_part(id: nat) -> Seq<u8> {
    PART_PREFIX.spec_bytes() + decimal(id) + PART_SUFFIX.spec_bytes()
}

/// Archive paths of worksheet parts are plain ASCII.
pub proof fn lemma_sheet_part_ascii(id: nat)
    ensures
        is_ascii_bytes(sheet_part(id)),
{
    reveal_strlit("xl/worksheets/sheet");
    reveal_strlit(".xml");
    vstd::string::is_ascii_spec_bytes(PART_PREFIX);
    vstd::string::is_ascii_spec_bytes(PART_SUFFIX);
    assert(vstd::string::is_ascii(PART_PREFIX));
    assert(vstd::string::is_ascii(PART_SUFFIX));
    lemma_digits_ascii(id);
    let s = sheet_part(id);
    assert forall|i: int| 0 <= i < s.len() implies #[trigger] s[i] < 128 by {
        if i >= PART_PREFIX.spec_bytes().len() && i < PART_PREFIX.spec_bytes().len() + decimal(id).len() {
            assert(s[i] == decimal(id)[i - PART_PREFIX.spec_bytes().len()]);
        }
    }
}

/// Decimal digits are ASCII.
pub proof fn lemma_digits_ascii(n: nat)
    ensures
        is_ascii_bytes(decimal(n)),
        is_ascii_bytes(digits_of(n)),
    decreases n,
{
    if n > 0 {
        lemma_digits_ascii(n / 10);
    }
}

/// Builds the archive path of the worksheet part numbered `id`.
pub fn sheet_part_name(id: u16) -> (r: Vec<u8>)
    ensures
        r@ == sheet_part(id as nat),
{
    let mut name: Vec<u8> = Vec::new();
    name.extend_from_slice(PART_PREFIX.as_bytes());
    if id == 0 {
        name.push(48u8);
    } else {
        let (arr, digits) = num_to_bytes(id as u32);
        name.extend_from_slice(&arr.as_slice()[10 - digits..10]);
    }
    name.extend_from_slice(PART_SUFFIX.as_bytes());
    assert(name@ =~= sheet_part(id as nat));
    name
}

/// One worksheet being written into its archive entry.
pub struct Sheet<'a> {
    pub sheet_buf: &'a mut Archive,
    pub _name: String,
    current_row_num: u32,
    global_shared_vec: Vec<u8>,
    global_shared_letter_vec: Vec<u8>,
    rows: Ghost<Seq<Seq<Seq<u8>>>>,
    sent: Ghost<Seq<u8>>,
    closed: Ghost<bool>,
    part: Ghost<Seq<u8>>,
}

impl<'a> Sheet<'a> {
    /// The cell texts of the rows written so far, first row first.
    pub closed spec fn rows(&self) -> Seq<Seq<Seq<u8>>> {
        self.rows@
    }

    /// The bytes handed to the archive entry so far.
    pub closed spec fn sent(&self) -> Seq<u8> {
        self.sent@
    }

    /// The encoded bytes not yet handed to the archive entry.
    pub closed spec fn buffered(&self) -> Seq<u8> {
        self.global_shared_vec@
    }

    /// Whether the closing markup has been written.
    pub closed spec fn is_closed(&self) -> bool {
        self.closed@
    }

    /// The name given to the sheet.
    pub closed spec fn sheet_name(&self) -> String {
        self._name
    }

    /// The archive path of this sheet's entry.
    pub closed spec fn part_name(&self) -> Seq<u8> {
        self.part@
    }

    /// The archive the sheet writes into.
    pub closed spec fn archive(&self) -> Archive {
        *self.sheet_buf
    }

    /// The sheet's invariant: the row counter counts the rows, the scratch
    /// buffer is empty, the archive's open entry is this sheet's and holds
    /// exactly what was sent: the header and the rows up to the last
    /// multiple of `FLUSH_EVERY`, while the buffer holds the rows after
    /// them; once closed, the entry holds the whole part.
    pub closed spec fn wf(&self) -> bool {
        &&& self.current_row_num == self.rows@.len()
        &&& self.global_shared_letter_vec@.len() == 0
        &&& entry_bytes(*self.sheet_buf) == self.sent@
        &&& entry_names(*self.sheet_buf).len() > 0
        &&& entry_names(*self.sheet_buf).last() == self.part@
        &&& !self.closed@ ==> {
            &&& self.sent@ == SHEET_HEADER.spec_bytes() + rows_between(self.rows@, 0, last_flush(self.rows@.len()))
            &&& self.global_shared_vec@ == rows_between(self.rows@, last_flush(self.rows@.len()), self.rows@.len())
        }
        &&& self.closed@ ==> self.sent@ == sheet_xml(self.rows@) && self.global_shared_vec@.len() == 0
    }

    /// What a well-formed sheet's archive holds: its entry is the last one
    /// opened, named after the sheet's part; the entry holds the header and
    /// the rows up to the last multiple of `FLUSH_EVERY`, and the buffer the
    /// rows after them.
    pub proof fn lemma_sheet_state(&self)
        requires
            self.wf(),
        ensures
            entry_bytes(self.archive()) == self.sent(),
            entry_names(self.archive()).len() > 0,
            entry_names(self.archive()).last() == self.part_name(),
            !self.is_closed() ==> self.sent() == SHEET_HEADER.spec_bytes() + rows_between(
                self.rows(),
                0,
                last_flush(self.rows().len()),
            ),
            !self.is_closed() ==> self.buffered() == rows_between(
                self.rows(),
                last_flush(self.rows().len()),
                self.rows().len(),
            ),
    {
    }

    /// Once a sheet is closed, its archive entry holds the whole part:
    /// header, every row written, footer.
    pub proof fn lemma_closed_sheet_is_whole_part(&self)
        requires
            self.wf(),
            self.is_closed(),
        ensures
            entry_bytes(self.archive()) == sheet_xml(self.rows()),
            self.buffered().len() == 0,
    {
    }

    /// Opens the entry of worksheet number `id` in `writer` and writes the
    /// part's header into it.
    pub fn new(name: String, id: u16, writer: &'a mut Archive) -> (r: Result<Self, XlsxError>)
        ensures
            r is Ok ==> {
                let s = r->Ok_0;
                &&& s.wf()
                &&& !s.is_closed()
                &&& s.rows().len() == 0
                &&& s.buffered().len() == 0
                &&& s.part_name() == sheet_part(id as nat)
                &&& s.sheet_name() == name
                &&& entry_names(s.archive()) == entry_names(*old(writer)).push(sheet_part(id as nat))
                &&& entry_bytes(s.archive()) == SHEET_HEADER.spec_bytes()
            },
            r is Err ==> r->Err_0 is Zip || r->Err_0 is Io,
    {
        let part = sheet_part_name(id);
        proof {
            lemma_sheet_part_ascii(id as nat);
        }
        match writer.start_deflated_entry(part.as_slice(), COMPRESSION_LEVEL, true) {
            Ok(()) => {},
            Err(e) => {
                return Err(XlsxError::Zip(e));
            },
        }
        match writer.write_entry(SHEET_HEADER.as_bytes()) {
            Ok(()) => {},
            Err(e) => {
                return Err(XlsxError::Io(e));
            },
        }
        assert(entry_bytes(*writer) =~= SHEET_HEADER.spec_bytes());
        let s = Sheet {
            sheet_buf: writer,
            _name: name,
            current_row_num: 0,
            global_shared_vec: Vec::new(),
            global_shared_letter_vec: Vec::new(),
            rows: Ghost(Seq::empty()),
            sent: Ghost(SHEET_HEADER.spec_bytes()),
            closed: Ghost(false),
            part: Ghost(part@),
        };
        assert(s.sent@ =~= SHEET_HEADER.spec_bytes() + rows_between(s.rows@, 0, 0));
        assert(s.global_shared_vec@ =~= rows_between(s.rows@, 0, 0));
        Ok(s)
    }

    /// Appends the next row, numbered one more than the last, with `data` as
    /// the texts of its cells from column zero on. The buffer is handed to
    /// the archive after each row whose number is a multiple of
    /// `FLUSH_EVERY`, and only then. Fails, changing nothing, past the
    /// largest row number or where a cell reference would not fit its
    /// buffer. After an I/O failure the sheet is no longer usable.
    pub fn write_row(&mut self, data: Vec<&[u8]>) -> (r: Result<(), XlsxError>)
        requires
            old(self).wf(),
            !old(self).is_closed(),
        ensures
            !(r is Err && r->Err_0 is Io) ==> final(self).wf(),
            !final(self).is_closed(),
            final(self).sheet_name() == old(self).sheet_name(),
            final(self).part_name() == old(self).part_name(),
            old(self).rows().len() == MAX_ROW ==> r is Err && r->Err_0 is RowLimit,
            old(self).rows().len() < MAX_ROW && !refs_fit(data@.len() as nat, old(self).rows().len() + 1)
                ==> r is Err && r->Err_0 is CellRefTooLong,
            r is Err && !(r->Err_0 is Io) ==> {
                &&& final(self).rows() == old(self).rows()
                &&& final(self).sent() == old(self).sent()
                &&& final(self).buffered() == old(self).buffered()
                &&& final(self).archive() == old(self).archive()
            },
            old(self).rows().len() < MAX_ROW && refs_fit(data@.len() as nat, old(self).rows().len() + 1)
                ==> {
                let n = old(self).rows().len() + 1;
                let fragment = row_xml(n as nat, cells_of(data@));
                &&& final(self).rows() == old(self).rows().push(cells_of(data@))
                &&& n % (FLUSH_EVERY as nat) != 0 ==> {
                    &&& r is Ok
                    &&& final(self).archive() == old(self).archive()
                    &&& final(self).sent() == old(self).sent()
                    &&& final(self).buffered() == old(self).buffered() + fragment
                }
                &&& n % (FLUSH_EVERY as nat) == 0 && r is Ok ==> {
                    &&& entry_bytes(final(self).archive()) == entry_bytes(old(self).archive())
                        + old(self).buffered() + fragment
                    &&& entry_names(final(self).archive()) == entry_names(old(self).archive())
                    &&& final(self).sent() == old(self).sent() + old(self).buffered() + fragment
                    &&& final(self).buffered().len() == 0
                }
                &&& n % (FLUSH_EVERY as nat) == 0 && r is Err ==> {
                    &&& r->Err_0 is Io
                    &&& final(self).sent() == old(self).sent()
                    &&& final(self).buffered() == old(self).buffered() + fragment
                }
            },
    {
        if self.current_row_num >= MAX_ROW {
            return Err(XlsxError::RowLimit);
        }
        let row: u32 = self.current_row_num + 1;
        match encode_row(&mut self.global_shared_vec, &mut self.global_shared_letter_vec, row, &data) {
            Ok(()) => {},
            Err(e) => {
                return Err(e);
            },
        }
        self.current_row_num = row;
        proof {
            let old_rows = self.rows@;
            let cells = cells_of(data@);
            let n = old_rows.len();
            let lf = last_flush(n);
            self.rows = Ghost(old_rows.push(cells));
            lemma_rows_between_push(old_rows, cells, lf);
            lemma_rows_between_prefix(self.rows@, old_rows, 0, lf);
            if (n + 1) % (FLUSH_EVERY as nat) != 0 {
                assert(last_flush(n + 1) == lf);
            } else {
                assert(last_flush(n + 1) == n + 1);
                lemma_rows_between_concat(self.rows@, 0, lf, n + 1);
                assert(rows_between(self.rows@, n + 1, n + 1) =~= Seq::<u8>::empty());
                assert(self.sent@ + self.global_shared_vec@ =~= SHEET_HEADER.spec_bytes()
                    + rows_between(self.rows@, 0, n + 1));
            }
        }
        if self.current_row_num % FLUSH_EVERY == 0 {
            let r = self.flush();
            proof {
                if r is Ok {
                    assert(self.global_shared_vec@ =~= rows_between(self.rows@, self.rows@.len(), self.rows@.len()));
                }
            }
            r
        } else {
            Ok(())
        }
    }

    /// Hands the whole buffer to the archive entry and empties it.
    fn flush(&mut self) -> (r: Result<(), XlsxError>)
        ensures
            final(self).rows@ == old(self).rows@,
            final(self).closed@ == old(self).closed@,
            final(self).current_row_num == old(self).current_row_num,
            final(self).global_shared_letter_vec@ == old(self).global_shared_letter_vec@,
            final(self)._name == old(self)._name,
            final(self).part@ == old(self).part@,
            r is Ok ==> {
                &&& entry_bytes(*final(self).sheet_buf) == entry_bytes(*old(self).sheet_buf)
                    + old(self).global_shared_vec@
                &&& entry_names(*final(self).sheet_buf) == entry_names(*old(self).sheet_buf)
                &&& final(self).sent@ == old(self).sent@ + old(self).global_shared_vec@
                &&& final(self).global_shared_vec@.len() == 0
            },
            r is Err ==> {
                &&& r->Err_0 is Io
                &&& final(self).sent@ == old(self).sent@
                &&& final(self).global_shared_vec@ == old(self).global_shared_vec@
            },
    {
        match self.sheet_buf.write_entry(self.global_shared_vec.as_slice()) {
            Ok(()) => {
                self.sent = Ghost(self.sent@ + self.global_shared_vec@);
                self.global_shared_vec.clear();
                Ok(())
            },
            Err(e) => Err(XlsxError::Io(e)),
        }
    }

    /// Hands what is buffered to the archive entry, then the part's closing
    /// markup. After success the sheet is closed and takes no more rows.
    pub fn close(&mut self) -> (r: Result<(), XlsxError>)
        requires
            old(self).wf(),
            !old(self).is_closed(),
        ensures
            final(self).rows() == old(self).rows(),
            final(self).sheet_name() == old(self).sheet_name(),
            final(self).part_name() == old(self).part_name(),
            r is Ok ==> {
                &&& final(self).wf()
                &&& final(self).is_closed()
                &&& entry_bytes(final(self).archive()) == entry_bytes(old(self).archive())
                    + old(self).buffered() + SHEET_FOOTER.spec_bytes()
                &&& entry_bytes(final(self).archive()) == sheet_xml(old(self).rows())
                &&& entry_names(final(self).archive()) == entry_names(old(self).archive())
            },
            r is Err ==> {
                &&& r->Err_0 is Io
                &&& !final(self).is_closed()
                &&& final(self).buffered() == old(self).buffered() || final(self).buffered().len() == 0
            },
    {
        let ghost n = self.rows@.len();
        match self.flush() {
            Ok(()) => {},
            Err(e) => {
                return Err(e);
            },
        }
        proof {
            lemma_rows_between_concat(self.rows@, 0, last_flush(n), n);
        }
        match self.sheet_buf.write_entry(SHEET_FOOTER.as_bytes()) {
            Ok(()) => {
                proof {
                    self.sent = Ghost(self.sent@ + SHEET_FOOTER.spec_bytes());
                    self.closed = Ghost(true);
                }
                assert(self.sent@ =~= sheet_xml(self.rows@));
                Ok(())
            },
            Err(e) => Err(XlsxError::Io(e)),
        }
    }

    /// Number of rows written so far.
    pub fn row_count(&self) -> (r: u32)
        requires
            self.wf(),
        ensures
            r == self.rows().len(),
    {
        self.current_row_num
    }

    /// The encoded bytes not yet handed to the archive entry.
    pub fn pending(&self) -> (r: &[u8])
        ensures
            r@ == self.buffered(),
    {
        self.global_shared_vec.as_slice()
    }
}

} // verus!
