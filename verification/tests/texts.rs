use xlsx_editor::bytes::{find_bytes, find_bytes_from, insert_bytes, replace_bytes, rfind_bytes};
use xlsx_editor::coord::{
    col_idx_to_letters, col_index, col_letter, parse_target, split_coord, try_col_index_of_bytes,
    try_parse_target, try_split_coord, Target,
};
use xlsx_editor::error::XlsxError;
use xlsx_editor::frame::{table_with_head, without_quotes};
use xlsx_editor::markup::{bump_count, try_bump_count};
use xlsx_editor::text::{
    chars_of, decimal_text, looks_like_number, lossy_string, split_chars, text_from, trim_chars,
    uppercase_chars,
};
use xlsx_editor::workbook::{file_number_of, sheet_file_path};

#[test]
fn numbers_are_those_that_parse() {
    let texts = [
        "", "0", "00", "1", "-1", "+1", "1.", ".5", ".", "-.5e1", "1e5", "1E+5", "1e-05", "1e", "e5",
        "1e+", "1.5.2", "1 ", " 1", "1_0", "0x10", "inf", "-INF", "Infinity", "+infinity", "infinit",
        "nan", "-NaN", "nano", "--1", "+-1", "١", "1e5.0", "=1", "abc", "12a", "1,5", "-", "+", "e",
        ".e1", "1.e1", "9999999999999999999999999999", "1e999999999", "\n1", "1f64",
    ];
    for text in texts {
        assert_eq!(looks_like_number(text), text.parse::<f64>().is_ok(), "{:?}", text);
    }
}

#[test]
fn decimals_are_those_that_std_writes() {
    for n in [0u64, 1, 9, 10, 99, 100, 4294967295, 18446744073709551615] {
        assert_eq!(decimal_text(n), n.to_string());
    }
}

#[test]
fn text_goes_through_its_characters() {
    for text in ["", "abc", "привет", "€𝄞x", "\u{0}\u{7f}\u{80}\u{7ff}\u{800}\u{ffff}\u{10000}\u{10ffff}"] {
        assert_eq!(text_from(&chars_of(text)), text);
        assert_eq!(lossy_string(text.as_bytes()), text);
    }
    assert_eq!(lossy_string(b"a\xffb"), "a\u{fffd}b");
}

#[test]
fn text_is_split_trimmed_and_raised() {
    let pieces: Vec<String> =
        split_chars(&chars_of("a,,b c,"), ',').iter().map(|p| text_from(p)).collect();
    let expected: Vec<&str> = "a,,b c,".split(',').collect();
    assert_eq!(pieces, expected);
    assert_eq!(split_chars(&chars_of(""), ',').len(), 1);
    for text in ["", " a ", "\u{a0}b c\u{2003}", "\t\n", "\u{85}\u{3000}x"] {
        assert_eq!(text_from(&trim_chars(&chars_of(text))), text.trim());
    }
    assert_eq!(text_from(&uppercase_chars(&chars_of("aZ1éж"))), "aZ1éж".to_ascii_uppercase());
}

#[test]
fn columns_have_letters() {
    assert_eq!(col_letter(0), "A");
    assert_eq!(col_letter(25), "Z");
    assert_eq!(col_letter(26), "AA");
    assert_eq!(col_letter(701), "ZZ");
    assert_eq!(col_letter(702), "AAA");
    assert_eq!(col_idx_to_letters(16383), "XFD");
    assert_eq!(col_index("A"), 0);
    assert_eq!(col_index("xfd"), 16383);
    for n in (0..20000u32).step_by(37) {
        assert_eq!(col_index(&col_letter(n)), n as usize);
        assert_eq!(split_coord(&(col_letter(n) + &n.to_string())), (n, n));
    }
    assert_eq!(try_col_index_of_bytes(b""), None);
    assert_eq!(try_col_index_of_bytes(b"A1"), None);
    assert_eq!(try_col_index_of_bytes(&[b'Z'; 40]), None);
    assert_eq!(try_col_index_of_bytes(b"["), Some(26));
}

#[test]
fn ranges_are_told_apart() {
    assert!(matches!(parse_target("B2"), Ok(Target::Cell(c)) if c == "B2"));
    assert!(matches!(parse_target("a1:C10"), Ok(Target::Rect { c0: 0, r0: 1, c1: 2, r1: 10 })));
    assert!(matches!(parse_target("D:"), Ok(Target::Col(3))));
    assert!(matches!(parse_target("5:"), Ok(Target::Row(5))));
    assert!(matches!(parse_target("99999999999:"), Err(XlsxError::Parse(_))));
    for text in ["", "A", "1", ":", "A:B", "1:2", "A1:", "A1:B", "A1:B2:C3", "A1\n", "Ä1", "A١", "A1 "] {
        assert!(
            matches!(parse_target(text), Err(XlsxError::InvalidRange { range }) if range == text),
            "{:?}",
            text
        );
    }
    assert!(try_parse_target("A1:B99999999999").is_none());
    assert!(matches!(try_parse_target("ZZZZZZZZZZ9"), Some(Ok(Target::Cell(_)))));
    assert_eq!(try_split_coord("A"), None);
    assert_eq!(try_split_coord("AB12"), Some((27, 12)));
}

#[test]
fn bytes_are_searched_and_edited() {
    let hay = b"abcabc";
    assert_eq!(find_bytes(hay, b"bc"), Some(1));
    assert_eq!(find_bytes_from(hay, b"bc", 2), Some(4));
    assert_eq!(find_bytes_from(hay, b"bc", 5), None);
    assert_eq!(rfind_bytes(hay, b"bc"), Some(4));
    assert_eq!(rfind_bytes(hay, b"abcabcd"), None);
    assert_eq!(find_bytes(b"", b"a"), None);
    let mut bytes = hay.to_vec();
    insert_bytes(&mut bytes, 3, b"-");
    assert_eq!(bytes, b"abc-abc");
    replace_bytes(&mut bytes, 1, 4, b"XY");
    assert_eq!(bytes, b"aXYabc");
}

#[test]
fn counts_grow() {
    let mut xml = b"<a count=\"1\"/><fonts x=\"2\" count=\"9\">".to_vec();
    bump_count(&mut xml, "<fonts", "count=\"").unwrap();
    assert_eq!(xml, b"<a count=\"1\"/><fonts x=\"2\" count=\"10\">");
    bump_count(&mut xml, "<fonts", "count=\"").unwrap();
    assert_eq!(xml, b"<a count=\"1\"/><fonts x=\"2\" count=\"11\">");
    assert!(matches!(
        try_bump_count(&mut xml, "<fills", "count=\""),
        Some(Err(XlsxError::AttributeNotFound { attribute })) if attribute == "count"
    ));
    let mut open = b"<fonts count=\"1".to_vec();
    assert!(try_bump_count(&mut open, "<fonts", "count=\"").is_none());
    let mut signed = b"<fonts count=\"+7\">".to_vec();
    assert!(matches!(try_bump_count(&mut signed, "<fonts", "count=\""), Some(Ok(()))));
    assert_eq!(signed, b"<fonts count=\"8\">");
}

#[test]
fn files_of_sheets_are_numbered() {
    assert_eq!(sheet_file_path(12), "xl/worksheets/sheet12.xml");
    assert_eq!(file_number_of("xl/worksheets/sheet12.xml"), Some(12));
    assert_eq!(file_number_of("xl/worksheets/sheet.xml"), None);
    assert_eq!(file_number_of("xl/worksheets/sheet12.xm"), None);
    assert_eq!(file_number_of("xl/worksheets/sheetA.xml"), None);
    assert_eq!(file_number_of("xl/worksheets/sheet99999999999999999999999.xml"), None);
}

#[test]
fn quotes_are_taken_out_below_the_head() {
    assert_eq!(without_quotes("\"a\"b\"\""), "ab");
    let table = table_with_head(
        vec!["\"h\"".to_string()],
        &[vec!["\"x\"".to_string(), "1".to_string()], vec![]],
    );
    assert_eq!(table.len(), 3);
    assert_eq!(table[0], vec!["\"h\""]);
    assert_eq!(table[1], vec!["x", "1"]);
    assert!(table[2].is_empty());
}
