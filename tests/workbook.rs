use excel_rs_xlsx::error::XlsxError;
use excel_rs_xlsx::sheet::sheet_part_name;
use excel_rs_xlsx::workbook::WorkBook;
use std::io::{Cursor, Read};

const HEADER: &str = "<?xml version=\"1.0\" encoding=\"UTF-8\" standalone=\"yes\"?><worksheet xmlns=\"http://schemas.openxmlformats.org/spreadsheetml/2006/main\" xmlns:r=\"http://schemas.openxmlformats.org/officeDocument/2006/relationships\"><sheetData>";

fn one_cell_row(n: u32) -> String {
    format!("<row r=\"{}\"><c r=\"A{}\" t=\"str\"><v>v</v></c></row>", n, n)
}

fn well_formed(xml: &str) -> bool {
    let mut reader = quick_xml::Reader::from_str(xml);
    let mut depth: i64 = 0;
    loop {
        match reader.read_event() {
            Ok(quick_xml::events::Event::Start(_)) => depth += 1,
            Ok(quick_xml::events::Event::End(_)) => {
                depth -= 1;
                if depth < 0 {
                    return false;
                }
            }
            Ok(quick_xml::events::Event::Eof) => return depth == 0,
            Ok(_) => {}
            Err(_) => return false,
        }
    }
}

#[test]
fn part_names() {
    assert_eq!(sheet_part_name(1), b"xl/worksheets/sheet1.xml".to_vec());
    assert_eq!(sheet_part_name(12), b"xl/worksheets/sheet12.xml".to_vec());
    assert_eq!(sheet_part_name(0), b"xl/worksheets/sheet0.xml".to_vec());
}

#[test]
fn rows_stay_buffered_until_close() {
    let mut wb = WorkBook::new(Cursor::new(Vec::new()));
    let mut sheet = wb.get_worksheet("first".to_string()).unwrap();
    let data: Vec<&[u8]> = vec![b"x", b"y", b"z"];
    sheet.write_row(data).unwrap();
    assert_eq!(sheet.row_count(), 1);
    let pending = String::from_utf8(sheet.pending().to_vec()).unwrap();
    assert_eq!(
        pending,
        "<row r=\"1\"><c r=\"A1\" t=\"str\"><v>x</v></c><c r=\"B1\" t=\"str\"><v>y</v></c><c r=\"C1\" t=\"str\"><v>z</v></c></row>"
    );
    sheet.close().unwrap();
    assert!(sheet.pending().is_empty());
}

#[test]
fn flush_at_hundred_thousand_rows() {
    let mut wb = WorkBook::new(Cursor::new(Vec::new()));
    let mut sheet = wb.get_worksheet("big".to_string()).unwrap();
    for i in 1..100_000u32 {
        let data: Vec<&[u8]> = vec![b"v"];
        sheet.write_row(data).unwrap();
        assert!(!sheet.pending().is_empty(), "flushed early at row {}", i);
    }
    let data: Vec<&[u8]> = vec![b"v"];
    sheet.write_row(data).unwrap();
    assert_eq!(sheet.row_count(), 100_000);
    assert!(sheet.pending().is_empty());
    let data: Vec<&[u8]> = vec![b"v"];
    sheet.write_row(data).unwrap();
    assert_eq!(String::from_utf8(sheet.pending().to_vec()).unwrap(), one_cell_row(100_001));
    sheet.close().unwrap();
    assert!(sheet.pending().is_empty());
}

#[test]
fn two_worksheets_end_to_end() {
    let mut wb = WorkBook::new(Cursor::new(Vec::new()));
    {
        let mut sheet = wb.get_worksheet("one".to_string()).unwrap();
        let data: Vec<&[u8]> = vec![b"a<b", b"plain"];
        sheet.write_row(data).unwrap();
        let data: Vec<&[u8]> = vec![b"\"q\" & 'r'"];
        sheet.write_row(data).unwrap();
        sheet.close().unwrap();
    }
    {
        let mut sheet = wb.get_worksheet("two".to_string()).unwrap();
        let data: Vec<&[u8]> = vec![b"v"];
        sheet.write_row(data).unwrap();
        sheet.close().unwrap();
    }
    let out = wb.finish().unwrap().into_inner();
    let mut archive = zip::ZipArchive::new(Cursor::new(out)).unwrap();
    assert_eq!(archive.len(), 2);
    let mut parts: Vec<(String, String)> = Vec::new();
    for i in 0..archive.len() {
        let mut file = archive.by_index(i).unwrap();
        let mut text = String::new();
        file.read_to_string(&mut text).unwrap();
        parts.push((file.name().to_string(), text));
    }
    assert_eq!(parts[0].0, "xl/worksheets/sheet1.xml");
    assert_eq!(parts[1].0, "xl/worksheets/sheet2.xml");
    assert_eq!(
        parts[0].1,
        format!(
            "{}<row r=\"1\"><c r=\"A1\" t=\"str\"><v>a&lt;b</v></c><c r=\"B1\" t=\"str\"><v>plain</v></c></row><row r=\"2\"><c r=\"A2\" t=\"str\"><v>&quot;q&quot; &amp; &apos;r&apos;</v></c></row></sheetData></worksheet>",
            HEADER
        )
    );
    assert_eq!(parts[1].1, format!("{}{}</sheetData></worksheet>", HEADER, one_cell_row(1)));
    for (_, text) in &parts {
        assert!(well_formed(text));
    }
}

#[test]
fn empty_sheet_is_well_formed() {
    let mut wb = WorkBook::new(Cursor::new(Vec::new()));
    {
        let mut sheet = wb.get_worksheet("empty".to_string()).unwrap();
        sheet.close().unwrap();
    }
    let out = wb.finish().unwrap().into_inner();
    let mut archive = zip::ZipArchive::new(Cursor::new(out)).unwrap();
    assert_eq!(archive.len(), 1);
    let mut text = String::new();
    archive.by_index(0).unwrap().read_to_string(&mut text).unwrap();
    assert_eq!(text, format!("{}</sheetData></worksheet>", HEADER));
    assert!(well_formed(&text));
}

#[test]
fn finish_without_sheets() {
    let wb = WorkBook::new(Cursor::new(Vec::new()));
    let out = wb.finish().unwrap().into_inner();
    let archive = zip::ZipArchive::new(Cursor::new(out)).unwrap();
    assert_eq!(archive.len(), 0);
}

#[test]
fn sheet_error_is_not_a_limit_error_for_normal_rows() {
    let mut wb = WorkBook::new(Cursor::new(Vec::new()));
    let mut sheet = wb.get_worksheet("s".to_string()).unwrap();
    let data: Vec<&[u8]> = vec![b"x"];
    let r = sheet.write_row(data);
    assert!(!matches!(r, Err(XlsxError::RowLimit)));
}
