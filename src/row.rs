//! The row encoder: one `<row>` element, appended to a byte buffer.
use crate::encode::{
    col_label, digits_of, entity, escape_in_place, escaped, held_digits, is_reserved,
    lists_reserved, num_to_bytes, ref_id, MAX_ROW, REF_CAP,
};
use crate::error::XlsxError;
use crate::xml::{
    cells_of, cells_xml, lemma_escaped_concat, lemma_escaped_plain, lemma_escaped_prefix,
    refs_fit, row_xml, CELL_CLOSE, CELL_OPEN, CELL_OPEN_END, ROW_CLOSE, ROW_OPEN, ROW_OPEN_END,
};
use vstd::prelude::*;
use vstd::string::StringSliceAdditionalSpecFns;

verus! {

/// Appends the escaped form of `datum` to `buf`: the runs between reserved
/// bytes are copied whole, each reserved byte is replaced by its entity.
pub fn write_escaped(buf: &mut Vec<u8>, datum: &[u8])
    ensures
        final(buf)@ == old(buf)@ + escaped(datum@),
{
    let ghost start = buf@;
    let ghost d = datum@;
    let (mut chars, chars_pos) = escape_in_place(datum);
    let ghost all_chars = chars@;
    let n: usize = chars_pos.len();
    let len: usize = datum.len();
    let mut k: usize = 0;
    let mut current_pos: usize = 0;
    while k < n
        invariant
            d == datum@,
            len == d.len(),
            n == chars_pos@.len(),
            all_chars.len() == n,
            k <= n,
            chars@ == all_chars.subrange(k as int, n as int),
            forall|j: int| 0 <= j < n ==> {
                &&& 0 <= #[trigger] chars_pos@[j] < d.len()
                &&& is_reserved(d[chars_pos@[j] as int])
                &&& all_chars[j]@ == entity(d[chars_pos@[j] as int])
            },
            forall|a: int, b: int| 0 <= a < b < n ==> chars_pos@[a] < chars_pos@[b],
            lists_reserved(d, chars_pos@, d.len() as int),
            k == 0 ==> current_pos == 0,
            k > 0 ==> current_pos == chars_pos@[k - 1] + 1,
            current_pos <= d.len(),
            buf@ == start + escaped(d.subrange(0, current_pos as int)),
        decreases n - k,
    {
        let p: usize = chars_pos[k];
        assert(p == chars_pos@[k as int]);
        assert(p < d.len());
        let e = chars.pop_front().unwrap();
        assert(e == all_chars[k as int]);
        assert(k > 0 ==> chars_pos@[k - 1] < chars_pos@[k as int]);
        let run = &datum[current_pos..p];
        buf.extend_from_slice(run);
        buf.extend_from_slice(e);
        proof {
            let run_s = d.subrange(current_pos as int, p as int);
            assert forall|i: int| 0 <= i < run_s.len() implies !is_reserved(#[trigger] run_s[i]) by {
                let at = current_pos + i;
                assert(run_s[i] == d[at]);
                if is_reserved(d[at]) {
                    let j = choose|j: int| 0 <= j < n && chars_pos@[j] == at;
                    if j < k {
                        if j < k - 1 {
                            assert(chars_pos@[j] < chars_pos@[k - 1]);
                        }
                    } else if j > k {
                        assert(chars_pos@[k as int] < chars_pos@[j]);
                    }
                }
            }
            lemma_escaped_plain(run_s);
            assert(d.subrange(0, p as int) =~= d.subrange(0, current_pos as int) + run_s);
            lemma_escaped_concat(d.subrange(0, current_pos as int), run_s);
            lemma_escaped_prefix(d, p as int);
            assert(buf@ =~= start + escaped(d.subrange(0, p + 1)));
        }
        current_pos = p + 1;
        k = k + 1;
    }
    let rest = &datum[current_pos..len];
    buf.extend_from_slice(rest);
    proof {
        let rest_s = d.subrange(current_pos as int, len as int);
        assert forall|i: int| 0 <= i < rest_s.len() implies !is_reserved(#[trigger] rest_s[i]) by {
            let at = current_pos + i;
            assert(rest_s[i] == d[at]);
            if is_reserved(d[at]) {
                let j = choose|j: int| 0 <= j < n && chars_pos@[j] == at;
                assert(n > 0);
                if j < n - 1 {
                    assert(chars_pos@[j] < chars_pos@[n - 1]);
                }
                assert(chars_pos@[j] <= chars_pos@[n - 1]);
            }
        }
        lemma_escaped_plain(rest_s);
        assert(d =~= d.subrange(0, current_pos as int) + rest_s);
        lemma_escaped_concat(d.subrange(0, current_pos as int), rest_s);
        assert(buf@ =~= start + escaped(d));
    }
}

/// Appends row number `row` holding the cells `data`, in column order, to
/// `buf`; `letters` is an empty scratch buffer for column labels and is
/// left empty. When a cell reference does not fit its buffer, nothing is
/// appended and the error says so.
#[verifier::rlimit(40)]
pub fn encode_row(buf: &mut Vec<u8>, letters: &mut Vec<u8>, row: u32, data: &Vec<&[u8]>) -> (r: Result<(), XlsxError>)
    requires
        old(letters)@.len() == 0,
        1 <= row <= MAX_ROW,
    ensures
        final(letters)@.len() == 0,
        r is Ok <==> refs_fit(data@.len() as nat, row as nat),
        r is Ok ==> final(buf)@ == old(buf)@ + row_xml(row as nat, cells_of(data@)),
        r is Err ==> r->Err_0 is CellRefTooLong,
        r is Err ==> final(buf)@ == old(buf)@,
{
    let ghost start = buf@;
    let ghost cells = cells_of(data@);
    let start_len: usize = buf.len();
    let (row_in_chars_arr, digits) = num_to_bytes(row);
    buf.extend_from_slice(ROW_OPEN.as_bytes());
    buf.extend_from_slice(&row_in_chars_arr.as_slice()[10 - digits..10]);
    buf.extend_from_slice(ROW_OPEN_END.as_bytes());
    let ghost head = buf@;
    assert(head =~= start + ROW_OPEN.spec_bytes() + digits_of(row as nat) + ROW_OPEN_END.spec_bytes());
    let n: usize = data.len();
    let mut col: usize = 0;
    while col < n
        invariant
            n == data@.len(),
            cells == cells_of(data@),
            col <= n,
            letters@.len() == 0,
            digits <= 10,
            digits == digits_of(row as nat).len(),
            held_digits((row_in_chars_arr, digits)) == digits_of(row as nat),
            start_len == start.len(),
            start == old(buf)@,
            head == start + ROW_OPEN.spec_bytes() + digits_of(row as nat) + ROW_OPEN_END.spec_bytes(),
            buf@ == head + cells_xml(row as nat, cells.subrange(0, col as int)),
            refs_fit(col as nat, row as nat),
        decreases n - col,
    {
        let datum: &[u8] = data[col];
        let (ref_arr, pos) = match ref_id(letters, col, (row_in_chars_arr, digits)) {
            Ok(v) => v,
            Err(e) => {
                buf.truncate(start_len);
                assert(buf@ =~= start);
                assert(!(col_label(col as nat).len() + digits_of(row as nat).len() <= REF_CAP));
                return Err(e);
            },
        };
        buf.extend_from_slice(CELL_OPEN.as_bytes());
        buf.extend_from_slice(&ref_arr.as_slice()[0..pos]);
        buf.extend_from_slice(CELL_OPEN_END.as_bytes());
        write_escaped(buf, datum);
        buf.extend_from_slice(CELL_CLOSE.as_bytes());
        proof {
            assert(cells.subrange(0, col + 1).drop_last() =~= cells.subrange(0, col as int));
            assert(cells[col as int] == datum@);
            assert(buf@ =~= head + cells_xml(row as nat, cells.subrange(0, col + 1)));
        }
        col = col + 1;
    }
    buf.extend_from_slice(ROW_CLOSE.as_bytes());
    assert(cells.subrange(0, n as int) =~= cells);
    assert(buf@ =~= start + row_xml(row as nat, cells));
    Ok(())
}

} // verus!
