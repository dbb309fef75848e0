use excel_rs_xlsx::encode::{col_to_letter, escape_in_place, num_to_bytes, ref_id};
use excel_rs_xlsx::error::XlsxError;
use excel_rs_xlsx::row::{encode_row, write_escaped};

fn label(col: usize) -> Vec<u8> {
    let mut scratch: Vec<u8> = Vec::new();
    col_to_letter(&mut scratch, col).to_vec()
}

fn digits(n: u32) -> Vec<u8> {
    let (arr, count) = num_to_bytes(n);
    arr[10 - count..].to_vec()
}

fn reference(col: usize, row: u32) -> Result<Vec<u8>, XlsxError> {
    let mut scratch: Vec<u8> = Vec::new();
    let (arr, pos) = ref_id(&mut scratch, col, num_to_bytes(row))?;
    assert!(scratch.is_empty());
    Ok(arr[..pos].to_vec())
}

fn escaped(text: &[u8]) -> Vec<u8> {
    let mut out: Vec<u8> = Vec::new();
    write_escaped(&mut out, text);
    out
}

#[test]
fn single_letter_columns() {
    for i in 0..26usize {
        assert_eq!(label(i), vec![b'A' + i as u8]);
    }
}

#[test]
fn multi_letter_columns() {
    assert_eq!(label(26), b"AA".to_vec());
    assert_eq!(label(27), b"AB".to_vec());
    assert_eq!(label(51), b"AZ".to_vec());
    assert_eq!(label(52), b"BA".to_vec());
    assert_eq!(label(701), b"ZZ".to_vec());
    assert_eq!(label(702), b"AAA".to_vec());
    assert_eq!(label(16383), b"XFD".to_vec());
}

#[test]
fn column_labels_increase() {
    let mut prev = label(0);
    for i in 1..20000usize {
        let next = label(i);
        assert!(prev.len() < next.len() || (prev.len() == next.len() && prev < next), "column {}", i);
        prev = next;
    }
}

#[test]
fn scratch_buffer_holds_only_the_label() {
    let mut scratch: Vec<u8> = Vec::new();
    let r = col_to_letter(&mut scratch, 702).to_vec();
    assert_eq!(r, b"AAA".to_vec());
    assert_eq!(scratch, b"AAA".to_vec());
}

#[test]
fn digits_round_trip() {
    for n in [1u32, 9, 10, 99, 100, 123456, 999_999_999, 1_000_000_000, u32::MAX] {
        let d = digits(n);
        let text = String::from_utf8(d.clone()).unwrap();
        assert_eq!(text.parse::<u32>().unwrap(), n);
        assert_eq!(text, n.to_string());
    }
}

#[test]
fn digit_count() {
    assert_eq!(num_to_bytes(7).1, 1);
    assert_eq!(num_to_bytes(100).1, 3);
    assert_eq!(num_to_bytes(999_999_999).1, 9);
    assert_eq!(num_to_bytes(u32::MAX).1, 10);
}

#[test]
fn largest_row_number_digits() {
    let (arr, count) = num_to_bytes(u32::MAX);
    assert_eq!(count, 10);
    assert_eq!(arr.to_vec(), b"4294967295".to_vec());
}

#[test]
fn unused_digit_bytes_are_zero() {
    let (arr, count) = num_to_bytes(123);
    assert_eq!(count, 3);
    assert_eq!(arr.to_vec(), vec![0, 0, 0, 0, 0, 0, 0, b'1', b'2', b'3']);
}

#[test]
fn first_cell_reference() {
    assert_eq!(reference(0, 1).unwrap(), b"A1".to_vec());
}

#[test]
fn column_27_row_100_reference() {
    assert_eq!(reference(27, 100).unwrap(), b"AB100".to_vec());
}

#[test]
fn widest_reference_that_fits() {
    assert_eq!(reference(702, 999_999_999).unwrap(), b"AAA999999999".to_vec());
}

#[test]
fn references_on_the_largest_row() {
    assert_eq!(reference(0, u32::MAX).unwrap(), b"A4294967295".to_vec());
    assert_eq!(reference(26, u32::MAX).unwrap(), b"AA4294967295".to_vec());
    assert!(matches!(reference(702, u32::MAX), Err(XlsxError::CellRefTooLong)));
}

#[test]
fn reference_too_long() {
    assert!(matches!(reference(18278, 999_999_999), Err(XlsxError::CellRefTooLong)));
}

#[test]
fn plain_text_has_no_positions() {
    let text: &[u8] = b"plain text 123";
    let (chars, pos) = escape_in_place(text);
    assert!(chars.is_empty());
    assert!(pos.is_empty());
    assert_eq!(escaped(text), text.to_vec());
}

#[test]
fn empty_text() {
    let (chars, pos) = escape_in_place(b"");
    assert!(chars.is_empty() && pos.is_empty());
    assert_eq!(escaped(b""), Vec::<u8>::new());
}

#[test]
fn less_than_is_escaped() {
    let (chars, pos) = escape_in_place(b"a<b");
    assert_eq!(pos.iter().copied().collect::<Vec<usize>>(), vec![1]);
    assert_eq!(chars[0], b"&lt;");
    assert_eq!(escaped(b"a<b"), b"a&lt;b".to_vec());
}

#[test]
fn all_five_reserved_characters() {
    let text: &[u8] = b"<x>&'\"";
    let (chars, pos) = escape_in_place(text);
    assert_eq!(pos.iter().copied().collect::<Vec<usize>>(), vec![0, 2, 3, 4, 5]);
    let expected: Vec<&[u8]> = vec![b"&lt;", b"&gt;", b"&amp;", b"&apos;", b"&quot;"];
    assert_eq!(chars.iter().copied().collect::<Vec<&[u8]>>(), expected);
    assert_eq!(escaped(text), b"&lt;x&gt;&amp;&apos;&quot;".to_vec());
}

#[test]
fn adjacent_reserved_characters() {
    assert_eq!(escaped(b"&&x<<"), b"&amp;&amp;x&lt;&lt;".to_vec());
}

#[test]
fn first_row_of_three_cells() {
    let mut buf: Vec<u8> = Vec::new();
    let mut letters: Vec<u8> = Vec::new();
    let data: Vec<&[u8]> = vec![b"x", b"y", b"z"];
    encode_row(&mut buf, &mut letters, 1, &data).unwrap();
    let text = String::from_utf8(buf).unwrap();
    assert_eq!(
        text,
        "<row r=\"1\"><c r=\"A1\" t=\"str\"><v>x</v></c><c r=\"B1\" t=\"str\"><v>y</v></c><c r=\"C1\" t=\"str\"><v>z</v></c></row>"
    );
    assert!(letters.is_empty());
}

#[test]
fn row_appends_after_existing_bytes() {
    let mut buf: Vec<u8> = b"prefix".to_vec();
    let mut letters: Vec<u8> = Vec::new();
    let data: Vec<&[u8]> = vec![b"a&b"];
    encode_row(&mut buf, &mut letters, 42, &data).unwrap();
    assert_eq!(
        String::from_utf8(buf).unwrap(),
        "prefix<row r=\"42\"><c r=\"A42\" t=\"str\"><v>a&amp;b</v></c></row>"
    );
}

#[test]
fn empty_row() {
    let mut buf: Vec<u8> = Vec::new();
    let mut letters: Vec<u8> = Vec::new();
    let data: Vec<&[u8]> = Vec::new();
    encode_row(&mut buf, &mut letters, 3, &data).unwrap();
    assert_eq!(String::from_utf8(buf).unwrap(), "<row r=\"3\"></row>");
}
