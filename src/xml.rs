//! The worksheet part as a mathematical byte sequence: the markup pieces, and
//! what a cell, a row and a whole part consist of.
use crate::encode::{cell_ref, col_label, digits_of, escape_byte, escaped, is_reserved, REF_CAP};
use vstd::prelude::*;
use vstd::string::StringSliceAdditionalSpecFns;

verus! {

/// XML declaration, root element with its two namespaces, and the opening of
/// the cell data.
pub const SHEET_HEADER: &'static str = "<?xml version=\"1.0\" encoding=\"UTF-8\" standalone=\"yes\"?><worksheet xmlns=\"http://schemas.openxmlformats.org/spreadsheetml/2006/main\" xmlns:r=\"http://schemas.openxmlformats.org/officeDocument/2006/relationships\"><sheetData>";

/// Closes the cell data and the root element.
pub const SHEET_FOOTER: &'static str = "</sheetData></worksheet>";

pub const ROW_OPEN: &'static str = "<row r=\"";

pub const ROW_OPEN_END: &'static str = "\">";

pub const ROW_CLOSE: &'static str = "</row>";

pub const CELL_OPEN: &'static str = "<c r=\"";

pub const CELL_OPEN_END: &'static str = "\" t=\"str\"><v>";

pub const CELL_CLOSE: &'static str = "</v></c>";

/// One string-typed cell in column `col` of row `row` holding `text`.
pub open spec fn cell_xml(col: nat, row: nat, text: Seq<u8>) -> Seq<u8> {
    CELL_OPEN.spec_bytes() + cell_ref(col, digits_of(row)) + CELL_OPEN_END.spec_bytes()
        + escaped(text) + CELL_CLOSE.spec_bytes()
}

/// The cells of row `row`, in column order from column zero.
pub open spec fn cells_xml(row: nat, cells: Seq<Seq<u8>>) -> Seq<u8>
    decreases cells.len(),
{
    if cells.len() == 0 {
        Seq::empty()
    } else {
        cells_xml(row, cells.drop_last()) + cell_xml((cells.len() - 1) as nat, row, cells.last())
    }
}

/// One complete row element.
pub open spec fn row_xml(row: nat, cells: Seq<Seq<u8>>) -> Seq<u8> {
    ROW_OPEN.spec_bytes() + digits_of(row) + ROW_OPEN_END.spec_bytes() + cells_xml(row, cells)
        + ROW_CLOSE.spec_bytes()
}

/// The rows numbered `lo + 1` to `hi` of `rows` (row `k` is `rows[k - 1]`).
pub open spec fn rows_between(rows: Seq<Seq<Seq<u8>>>, lo: nat, hi: nat) -> Seq<u8>
    decreases hi,
{
    if hi <= lo {
        Seq::empty()
    } else {
        rows_between(rows, lo, (hi - 1) as nat) + row_xml(hi, rows[hi - 1])
    }
}

/// The rows of a sheet, numbered from one.
pub open spec fn rows_xml(rows: Seq<Seq<Seq<u8>>>) -> Seq<u8> {
    rows_between(rows, 0, rows.len())
}

/// A span of rows depends only on the rows in it.
pub proof fn lemma_rows_between_prefix(a: Seq<Seq<Seq<u8>>>, b: Seq<Seq<Seq<u8>>>, lo: nat, hi: nat)
    requires
        hi <= a.len(),
        hi <= b.len(),
        forall|i: int| 0 <= i < hi ==> a[i] == b[i],
    ensures
        rows_between(a, lo, hi) == rows_between(b, lo, hi),
    decreases hi,
{
    if hi > lo {
        lemma_rows_between_prefix(a, b, lo, (hi - 1) as nat);
    }
}

/// Two adjacent spans of rows make one.
pub proof fn lemma_rows_between_concat(rows: Seq<Seq<Seq<u8>>>, lo: nat, mid: nat, hi: nat)
    requires
        lo <= mid <= hi,
    ensures
        rows_between(rows, lo, mid) + rows_between(rows, mid, hi) == rows_between(rows, lo, hi),
    decreases hi,
{
    if hi == mid {
        assert(rows_between(rows, lo, mid) + rows_between(rows, mid, hi) =~= rows_between(rows, lo, hi));
    } else {
        lemma_rows_between_concat(rows, lo, mid, (hi - 1) as nat);
        assert(rows_between(rows, lo, mid) + rows_between(rows, mid, hi) =~= rows_between(rows, lo, hi));
    }
}

/// Adding a row after `rows` appends its element to any span ending there.
pub proof fn lemma_rows_between_push(rows: Seq<Seq<Seq<u8>>>, cells: Seq<Seq<u8>>, lo: nat)
    requires
        lo <= rows.len(),
    ensures
        rows_between(rows.push(cells), lo, rows.len() + 1) == rows_between(rows, lo, rows.len())
            + row_xml(rows.len() + 1, cells),
{
    lemma_rows_between_prefix(rows.push(cells), rows, lo, rows.len());
}

/// The whole worksheet part holding `rows`.
pub open spec fn sheet_xml(rows: Seq<Seq<Seq<u8>>>) -> Seq<u8> {
    SHEET_HEADER.spec_bytes() + rows_xml(rows) + SHEET_FOOTER.spec_bytes()
}

/// The texts of a row's cells.
pub open spec fn cells_of(data: Seq<&[u8]>) -> Seq<Seq<u8>> {
    data.map_values(|d: &[u8]| d@)
}

/// Whether every reference of a row of `n_cells` cells numbered `row` fits
/// the reference buffer.
pub open spec fn refs_fit(n_cells: nat, row: nat) -> bool {
    forall|c: nat| c < n_cells ==> #[trigger] col_label(c).len() + digits_of(row).len() <= REF_CAP
}

/// Escaping works byte by byte, so it distributes over concatenation.
pub proof fn lemma_escaped_concat(a: Seq<u8>, b: Seq<u8>)
    ensures
        escaped(a + b) == escaped(a) + escaped(b),
    decreases b.len(),
{
    if b.len() == 0 {
        assert(a + b =~= a);
        assert(escaped(b) =~= Seq::<u8>::empty());
        assert(escaped(a) + escaped(b) =~= escaped(a));
    } else {
        assert((a + b).drop_last() =~= a + b.drop_last());
        lemma_escaped_concat(a, b.drop_last());
        assert(escaped(a + b) =~= escaped(a) + escaped(b));
    }
}

/// Text without reserved characters escapes to itself.
pub proof fn lemma_escaped_plain(s: Seq<u8>)
    requires
        forall|i: int| 0 <= i < s.len() ==> !is_reserved(#[trigger] s[i]),
    ensures
        escaped(s) == s,
    decreases s.len(),
{
    if s.len() > 0 {
        lemma_escaped_plain(s.drop_last());
        assert(escaped(s) =~= s);
    }
}

/// Escaping a prefix one byte longer appends that byte's escaped form.
pub proof fn lemma_escaped_prefix(s: Seq<u8>, p: int)
    requires
        0 <= p < s.len(),
    ensures
        escaped(s.subrange(0, p + 1)) == escaped(s.subrange(0, p)) + escape_byte(s[p]),
{
    assert(s.subrange(0, p + 1).drop_last() =~= s.subrange(0, p));
}

} // verus!
