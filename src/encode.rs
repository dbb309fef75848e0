//! Low-level encoders: column labels, decimal digits, cell references and
//! the scan for reserved XML characters.
use crate::error::XlsxError;
use std::collections::VecDeque;
use vstd::prelude::*;

verus! {

/// Capacity of the digit buffer for a row number.
pub const DIGITS_CAP: usize = 10;

/// Largest row number: the row counter is a `u32`.
pub const MAX_ROW: u32 = 4_294_967_295;

/// The letter for one base-26 digit (`0` is `A`).
pub open spec fn letter(d: nat) -> u8 {
    (65 + d) as u8
}

/// The spreadsheet label of a zero-based column index: bijective base 26,
/// most significant letter first (`0` is `A`, `26` is `AA`).
pub open spec fn col_label(c: nat) -> Seq<u8>
    decreases c,
{
    if c < 26 {
        seq![letter(c)]
    } else {
        col_label((c / 26 - 1) as nat).push(letter(c % 26))
    }
}

/// The decimal digits of `n` in ASCII, most significant first, without
/// leading zeros (so empty for zero).
pub open spec fn digits_of(n: nat) -> Seq<u8>
    decreases n,
{
    if n == 0 {
        Seq::empty()
    } else {
        digits_of(n / 10).push((48 + n % 10) as u8)
    }
}

/// The number that a sequence of ASCII decimal digits denotes.
pub open spec fn decimal_value(s: Seq<u8>) -> int
    decreases s.len(),
{
    if s.len() == 0 {
        0
    } else {
        decimal_value(s.drop_last()) * 10 + (s.last() - 48)
    }
}

/// Ten to the power `k`.
pub open spec fn pow10(k: nat) -> nat
    decreases k,
{
    if k == 0 {
        1
    } else {
        10 * pow10((k - 1) as nat)
    }
}

/// A number below `10^k` has at most `k` digits.
pub proof fn lemma_digits_len(n: nat, k: nat)
    requires
        n < pow10(k),
    ensures
        digits_of(n).len() <= k,
    decreases k,
{
    if n > 0 {
        lemma_digits_len(n / 10, (k - 1) as nat);
    }
}

/// Reading the digits of `n` back as a decimal number gives `n`.
pub proof fn lemma_digits_round_trip(n: nat)
    ensures
        decimal_value(digits_of(n)) == n,
    decreases n,
{
    if n > 0 {
        lemma_digits_round_trip(n / 10);
        assert(digits_of(n).drop_last() =~= digits_of(n / 10));
    }
}

/// Spreadsheet column order on labels: a shorter label comes first, labels
/// of one length come in alphabetical order.
pub open spec fn label_before(a: Seq<u8>, b: Seq<u8>) -> bool {
    ||| a.len() < b.len()
    ||| a.len() == b.len() && exists|k: int|
        0 <= k < a.len() && a.subrange(0, k) == b.subrange(0, k) && a[k] < b[k]
}

/// The first 26 columns are labelled by one letter each, `A` to `Z`.
pub proof fn lemma_single_letter_columns(i: nat)
    requires
        i < 26,
    ensures
        col_label(i) == seq![(65 + i) as u8],
{
}

/// Every column's label comes before the next column's label.
pub proof fn lemma_col_label_monotonic(i: nat)
    ensures
        label_before(col_label(i), col_label(i + 1)),
    decreases i,
{
    if i + 1 < 26 {
        assert(col_label(i).subrange(0, 0) =~= col_label(i + 1).subrange(0, 0));
    } else if i == 25 {
        assert(col_label(26) == col_label(0).push(letter(0)));
    } else {
        let q = (i / 26 - 1) as nat;
        let p = col_label(q);
        assert(col_label(i) == p.push(letter(i % 26)));
        if i % 26 < 25 {
            assert((i + 1) / 26 == i / 26 && (i + 1) % 26 == i % 26 + 1);
            assert(col_label(i + 1) == p.push(letter((i + 1) % 26)));
            assert(col_label(i).subrange(0, p.len() as int) =~= p);
            assert(col_label(i + 1).subrange(0, p.len() as int) =~= p);
        } else {
            assert((i + 1) / 26 == i / 26 + 1 && (i + 1) % 26 == 0);
            let p2 = col_label(q + 1);
            assert(col_label(i + 1) == p2.push(letter(0)));
            lemma_col_label_monotonic(q);
            if p.len() == p2.len() {
                let k = choose|k: int| 0 <= k < p.len() && p.subrange(0, k) == p2.subrange(0, k) && p[k] < p2[k];
                assert(col_label(i).subrange(0, k) =~= p.subrange(0, k));
                assert(col_label(i + 1).subrange(0, k) =~= p2.subrange(0, k));
                assert(col_label(i)[k] == p[k] && col_label(i + 1)[k] == p2[k]);
            }
        }
    }
}

/// `s` read back to front.
pub open spec fn reversed(s: Seq<u8>) -> Seq<u8> {
    Seq::new(s.len(), |k: int| s[s.len() - 1 - k])
}

/// Writes the label of column `col` into the empty scratch buffer `vec`,
/// and returns it as a slice of that buffer.
pub fn col_to_letter(vec: &mut Vec<u8>, col: usize) -> (r: &[u8])
    requires
        old(vec)@.len() == 0,
    ensures
        r@ == col_label(col as nat),
        final(vec)@ == col_label(col as nat),
{
    let mut c: usize = col;
    loop
        invariant_except_break
            col_label(col as nat) =~= col_label(c as nat) + reversed(vec@),
        ensures
            col_label(col as nat) =~= reversed(vec@),
        decreases c,
    {
        let ghost before = vec@;
        vec.push(65u8 + (c % 26) as u8);
        assert(reversed(vec@) =~= seq![letter((c % 26) as nat)] + reversed(before));
        if c < 26 {
            assert(col_label(col as nat) =~= reversed(vec@));
            break;
        }
        assert(col_label(c as nat) == col_label((c / 26 - 1) as nat).push(letter((c % 26) as nat)));
        c = c / 26 - 1;
    }
    let ghost lsf = vec@;
    let n: usize = vec.len();
    let mut i: usize = 0;
    while i < n / 2
        invariant
            n == lsf.len(),
            vec@.len() == n,
            i <= n / 2,
            forall|k: int| 0 <= k < i ==> #[trigger] vec@[k] == lsf[n - 1 - k],
            forall|k: int| n - i <= k < n ==> #[trigger] vec@[k] == lsf[n - 1 - k],
            forall|k: int| i <= k < n - i ==> vec@[k] == lsf[k],
        decreases n / 2 - i,
    {
        let a = vec[i];
        let b = vec[n - 1 - i];
        vec[i] = b;
        vec[n - 1 - i] = a;
        i = i + 1;
    }
    assert(vec@ =~= reversed(lsf));
    vec.as_slice()
}

/// Writes the decimal digits of `n` at the end of a ten-byte buffer, enough
/// for any `u32`, and returns it with the number of digits written; the
/// bytes before the digits stay zero.
pub fn num_to_bytes(n: u32) -> (r: ([u8; 10], usize))
    ensures
        r.1 == digits_of(n as nat).len(),
        r.1 <= DIGITS_CAP,
        r.0@.subrange(10 - r.1, 10) == digits_of(n as nat),
        forall|j: int| 0 <= j < 10 - r.1 ==> r.0@[j] == 0,
{
    let mut row_in_chars_arr: [u8; 10] = [0; 10];
    let mut row: u32 = n;
    let mut digits: usize = 0;
    proof {
        reveal_with_fuel(pow10, 11);
        lemma_digits_len(n as nat, 10);
    }
    while row > 0
        invariant
            digits <= 10,
            digits_of(n as nat).len() <= 10,
            digits_of(n as nat) =~= digits_of(row as nat) + row_in_chars_arr@.subrange(10 - digits, 10),
            forall|j: int| 0 <= j < 10 - digits ==> row_in_chars_arr@[j] == 0,
        decreases row,
    {
        let ghost before = row_in_chars_arr@;
        let ghost d = (48 + row % 10) as u8;
        assert(digits_of(row as nat) == digits_of((row / 10) as nat).push(d));
        row_in_chars_arr[9 - digits] = 48u8 + (row % 10) as u8;
        assert(row_in_chars_arr@.subrange(10 - digits - 1, 10) =~= seq![d] + before.subrange(10 - digits, 10));
        row = row / 10;
        digits = digits + 1;
    }
    (row_in_chars_arr, digits)
}

/// Capacity of the buffer that holds one cell reference.
pub const REF_CAP: usize = 12;

/// The bytes of a cell reference: column label, then row digits.
pub open spec fn cell_ref(col: nat, row_digits: Seq<u8>) -> Seq<u8> {
    col_label(col) + row_digits
}

/// The digits that a buffer of `num_to_bytes` holds.
pub open spec fn held_digits(row: ([u8; 10], usize)) -> Seq<u8> {
    row.0@.subrange(10 - row.1, 10)
}

/// Builds the reference of the cell in column `col` of the row whose digits
/// are `row`, using the empty scratch buffer `vec` for the column label and
/// leaving it empty again. Fails when the reference exceeds its buffer.
pub fn ref_id(vec: &mut Vec<u8>, col: usize, row: ([u8; 10], usize)) -> (r: Result<([u8; 12], usize), XlsxError>)
    requires
        old(vec)@.len() == 0,
        row.1 <= DIGITS_CAP,
    ensures
        final(vec)@.len() == 0,
        match r {
            Ok((arr, pos)) => {
                &&& col_label(col as nat).len() + row.1 <= REF_CAP
                &&& pos == col_label(col as nat).len() + row.1
                &&& arr@.subrange(0, pos as int) == cell_ref(col as nat, held_digits(row))
            },
            Err(e) => col_label(col as nat).len() + row.1 > REF_CAP && e is CellRefTooLong,
        },
{
    let letter = col_to_letter(vec, col);
    let n_letters: usize = letter.len();
    let (row_in_chars_arr, digits) = row;
    if n_letters > REF_CAP - digits {
        vec.clear();
        return Err(XlsxError::CellRefTooLong);
    }
    let mut final_arr: [u8; 12] = [0; 12];
    let mut pos: usize = 0;
    while pos < n_letters
        invariant
            n_letters == letter@.len(),
            n_letters + digits <= 12,
            pos <= n_letters,
            forall|k: int| 0 <= k < pos ==> #[trigger] final_arr@[k] == letter@[k],
        decreases n_letters - pos,
    {
        final_arr[pos] = letter[pos];
        pos = pos + 1;
    }
    let mut i: usize = 0;
    while i < digits
        invariant
            n_letters == letter@.len(),
            n_letters + digits <= 12,
            digits <= 10,
            i <= digits,
            pos == n_letters + i,
            forall|k: int| 0 <= k < n_letters ==> #[trigger] final_arr@[k] == letter@[k],
            forall|k: int| 0 <= k < i ==> #[trigger] final_arr@[n_letters + k] == row_in_chars_arr@[10 - digits + k],
        decreases digits - i,
    {
        final_arr[pos] = row_in_chars_arr[10 - digits + i];
        pos = pos + 1;
        i = i + 1;
    }
    assert forall|k: int| 0 <= k < pos implies #[trigger] final_arr@[k] == cell_ref(col as nat, held_digits(row))[k] by {
        if k >= n_letters {
            let j = k - n_letters;
            assert(final_arr@[n_letters + j] == row_in_chars_arr@[10 - digits + j]);
        }
    }
    assert(final_arr@.subrange(0, pos as int) =~= cell_ref(col as nat, held_digits(row)));
    vec.clear();
    Ok((final_arr, pos))
}

/// Whether `b` is one of the five characters that XML text must escape.
pub open spec fn is_reserved(b: u8) -> bool {
    b == 60 || b == 62 || b == 38 || b == 39 || b == 34
}

/// The entity that replaces a reserved byte.
pub open spec fn entity(b: u8) -> Seq<u8> {
    if b == 60 {
        seq![38u8, 108, 116, 59]
    } else if b == 62 {
        seq![38u8, 103, 116, 59]
    } else if b == 38 {
        seq![38u8, 97, 109, 112, 59]
    } else if b == 39 {
        seq![38u8, 97, 112, 111, 115, 59]
    } else {
        seq![38u8, 113, 117, 111, 116, 59]
    }
}

/// The escaped form of one byte.
pub open spec fn escape_byte(b: u8) -> Seq<u8> {
    if is_reserved(b) {
        entity(b)
    } else {
        seq![b]
    }
}

/// XML text with each reserved byte replaced by its entity.
pub open spec fn escaped(s: Seq<u8>) -> Seq<u8>
    decreases s.len(),
{
    if s.len() == 0 {
        Seq::empty()
    } else {
        escaped(s.drop_last()) + escape_byte(s.last())
    }
}

/// Whether every reserved byte of `bytes` before offset `upto` is listed
/// in `pos`.
pub open spec fn lists_reserved(bytes: Seq<u8>, pos: Seq<usize>, upto: int) -> bool {
    forall|i: int| 0 <= i < upto && is_reserved(#[trigger] bytes[i])
        ==> exists|k: int| 0 <= k < pos.len() && pos[k] == i
}

const LT: [u8; 4] = [38, 108, 116, 59];

const GT: [u8; 4] = [38, 103, 116, 59];

const AMP: [u8; 5] = [38, 97, 109, 112, 59];

const APOS: [u8; 6] = [38, 97, 112, 111, 115, 59];

const QUOT: [u8; 6] = [38, 113, 117, 111, 116, 59];

/// Finds, in one scan, the offsets of the reserved bytes of `bytes` in
/// ascending order, each paired with the entity that replaces it.
#[verifier::rlimit(30)]
pub fn escape_in_place(bytes: &[u8]) -> (r: (VecDeque<&[u8]>, VecDeque<usize>))
    ensures
        r.0@.len() == r.1@.len(),
        forall|k: int| 0 <= k < r.1@.len() ==> {
            &&& 0 <= #[trigger] r.1@[k] < bytes@.len()
            &&& is_reserved(bytes@[r.1@[k] as int])
            &&& r.0@[k]@ == entity(bytes@[r.1@[k] as int])
        },
        forall|k: int, j: int| 0 <= k < j < r.1@.len() ==> r.1@[k] < r.1@[j],
        lists_reserved(bytes@, r.1@, bytes@.len() as int),
        (forall|i: int| 0 <= i < bytes@.len() ==> !is_reserved(#[trigger] bytes@[i]))
            ==> r.1@.len() == 0,
{
    let mut special_chars: VecDeque<&[u8]> = VecDeque::new();
    let mut special_char_pos: VecDeque<usize> = VecDeque::new();
    let len: usize = bytes.len();
    let mut x: usize = 0;
    while x < len
        invariant
            len == bytes@.len(),
            x <= len,
            special_chars@.len() == special_char_pos@.len(),
            forall|k: int| 0 <= k < special_char_pos@.len() ==> {
                &&& 0 <= #[trigger] special_char_pos@[k] < x
                &&& is_reserved(bytes@[special_char_pos@[k] as int])
                &&& special_chars@[k]@ == entity(bytes@[special_char_pos@[k] as int])
            },
            forall|k: int, j: int| 0 <= k < j < special_char_pos@.len() ==> special_char_pos@[k] < special_char_pos@[j],
            lists_reserved(bytes@, special_char_pos@, x as int),
        decreases len - x,
    {
        let b = bytes[x];
        let ghost old_pos = special_char_pos@;
        let e: Option<&[u8]> = if b == 60 {
            Some(LT.as_slice())
        } else if b == 62 {
            Some(GT.as_slice())
        } else if b == 39 {
            Some(APOS.as_slice())
        } else if b == 38 {
            Some(AMP.as_slice())
        } else if b == 34 {
            Some(QUOT.as_slice())
        } else {
            None
        };
        if let Some(e) = e {
            special_chars.push_back(e);
            special_char_pos.push_back(x);
        }
        assert forall|i: int| 0 <= i < x + 1 && is_reserved(#[trigger] bytes@[i])
            implies exists|k: int| 0 <= k < special_char_pos@.len() && special_char_pos@[k] == i by {
            if i < x {
                assert(lists_reserved(bytes@, old_pos, x as int));
                let k = choose|k: int| 0 <= k < old_pos.len() && old_pos[k] == i;
                assert(special_char_pos@[k] == i);
            } else {
                assert(special_char_pos@[special_char_pos@.len() - 1] == i);
            }
        }
        x = x + 1;
    }
    proof {
        if special_char_pos@.len() > 0 {
            assert(is_reserved(bytes@[special_char_pos@[0] as int]));
        }
        assert(x == len);
    }
    (special_chars, special_char_pos)
}

} // verus!
