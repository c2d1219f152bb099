use xlsx_editor::editor::XlsxEditor;
use xlsx_editor::error::XlsxError;
use xlsx_editor::sheet::{cell_xml, Sheet};
use xlsx_editor::workbook::Part;

fn editor_of(sheet: &str, last_row: u32) -> XlsxEditor {
    let new_files: Vec<Part> = Vec::new();
    XlsxEditor {
        sheet_path: "xl/worksheets/sheet1.xml".to_string(),
        sheet: Sheet { xml: sheet.as_bytes().to_vec(), last_row },
        styles_xml: Vec::new(),
        workbook_xml: Vec::new(),
        rels_xml: Vec::new(),
        new_files,
    }
}

fn sheet_text(editor: &XlsxEditor) -> &str {
    std::str::from_utf8(&editor.sheet.xml).unwrap()
}

fn words(list: &[&str]) -> Vec<String> {
    list.iter().map(|w| w.to_string()).collect()
}

fn cell(coord: &str, value: &str) -> String {
    String::from_utf8(cell_xml(coord, value)).unwrap()
}

#[test]
fn a_cell_is_a_formula_a_number_or_a_text() {
    assert_eq!(cell("A1", "=SUM(B1:B2)"), "<c r=\"A1\"><f>SUM(B1:B2)</f></c>");
    assert_eq!(cell("A1", "="), "<c r=\"A1\"><f></f></c>");
    assert_eq!(cell("B2", "-1.5e3"), "<c r=\"B2\"><v>-1.5e3</v></c>");
    assert_eq!(cell("B2", "NaN"), "<c r=\"B2\"><v>NaN</v></c>");
    assert_eq!(cell("C3", "abc"), "<c r=\"C3\" t=\"inlineStr\"><is><t>abc</t></is></c>");
    assert_eq!(cell("C3", ""), "<c r=\"C3\" t=\"inlineStr\"><is><t></t></is></c>");
}

#[test]
fn text_is_escaped() {
    assert_eq!(
        cell("A1", "<a & 'b' \"c\">"),
        "<c r=\"A1\" t=\"inlineStr\"><is><t>&lt;a &amp; &apos;b&apos; &quot;c&quot;&gt;</t></is></c>"
    );
    assert_eq!(
        cell("A1", "привет €"),
        "<c r=\"A1\" t=\"inlineStr\"><is><t>привет €</t></is></c>"
    );
}

#[test]
fn a_cell_is_replaced() {
    let mut app = editor_of("<sheetData><row r=\"2\"><c r=\"A2\"><v>1</v></c><c r=\"B2\"><v>2</v></c></row></sheetData>", 2);
    app.set_cell("A2", "9").unwrap();
    assert_eq!(
        sheet_text(&app),
        "<sheetData><row r=\"2\"><c r=\"A2\"><v>9</v></c><c r=\"B2\"><v>2</v></c></row></sheetData>"
    );
    app.set_cell("B2", "x").unwrap();
    app.set_cell("B2", "8").unwrap();
    assert_eq!(
        sheet_text(&app),
        "<sheetData><row r=\"2\"><c r=\"A2\"><v>9</v></c><c r=\"B2\"><v>8</v></c></row></sheetData>"
    );
}

#[test]
fn setting_a_cell_twice_is_setting_it_once() {
    let mut twice = editor_of("<sheetData><row r=\"9\"></row></sheetData>", 9);
    let mut once = editor_of("<sheetData><row r=\"9\"></row></sheetData>", 9);
    twice.set_cell("C4", "first").unwrap();
    twice.set_cell("C4", "second").unwrap();
    once.set_cell("C4", "second").unwrap();
    assert_eq!(sheet_text(&twice), sheet_text(&once));
    assert_eq!(
        sheet_text(&once),
        "<sheetData><row r=\"4\"><c r=\"C4\" t=\"inlineStr\"><is><t>second</t></is></c></row><row r=\"9\"></row></sheetData>"
    );
}

#[test]
fn cells_go_in_the_order_of_their_columns() {
    let mut app = editor_of("<sheetData><row r=\"1\"><c r=\"B1\"/><c r=\"AA1\"/></row></sheetData>", 1);
    app.set_cell("Z1", "1").unwrap();
    app.set_cell("A1", "2").unwrap();
    app.set_cell("AB1", "3").unwrap();
    assert_eq!(
        sheet_text(&app),
        "<sheetData><row r=\"1\"><c r=\"A1\"><v>2</v></c><c r=\"B1\"/><c r=\"Z1\"><v>1</v></c><c r=\"AA1\"/><c r=\"AB1\"><v>3</v></c></row></sheetData>"
    );
}

#[test]
fn a_cell_that_closes_itself_is_replaced_alone() {
    let mut app = editor_of("<sheetData><row r=\"1\"><c r=\"A1\"/><c r=\"B1\"/></row></sheetData>", 1);
    app.set_cell("A1", "5").unwrap();
    assert_eq!(
        sheet_text(&app),
        "<sheetData><row r=\"1\"><c r=\"A1\"><v>5</v></c><c r=\"B1\"/></row></sheetData>"
    );
    let mut app = editor_of("<worksheet><sheetData><row r=\"1\"><c r=\"A1\"/><c r=\"B1\"><v>2</v></c></row></sheetData></worksheet>", 1);
    app.set_cell("A1", "7").unwrap();
    assert_eq!(
        sheet_text(&app),
        "<worksheet><sheetData><row r=\"1\"><c r=\"A1\"><v>7</v></c><c r=\"B1\"><v>2</v></c></row></sheetData></worksheet>"
    );
}

#[test]
fn a_cell_is_found_by_its_reference() {
    let mut app = editor_of("<sheetData><row spans=\"1:2\" r=\"1\"><c s=\"4\" r=\"A1\"><v>1</v></c><c s=\"0\" r=\"C1\"/></row></sheetData>", 1);
    app.set_cell("A1", "7").unwrap();
    app.set_cell("B1", "8").unwrap();
    assert_eq!(
        sheet_text(&app),
        "<sheetData><row spans=\"1:2\" r=\"1\"><c r=\"A1\"><v>7</v></c><c r=\"B1\"><v>8</v></c><c s=\"0\" r=\"C1\"/></row></sheetData>"
    );
    app.set_cell("A11", "9").unwrap();
    assert!(sheet_text(&app).ends_with("</row><row r=\"11\"><c r=\"A11\"><v>9</v></c></row></sheetData>"));
}

#[test]
fn cells_can_be_set_in_any_order() {
    let sheet = "<sheetData><row r=\"2\"><c r=\"B2\"/></row></sheetData>";
    let mut one = editor_of(sheet, 2);
    one.set_cell("A2", "1").unwrap();
    one.set_cell("D2", "2").unwrap();
    let mut two = editor_of(sheet, 2);
    two.set_cell("D2", "2").unwrap();
    two.set_cell("A2", "1").unwrap();
    assert_eq!(sheet_text(&one), sheet_text(&two));
}

#[test]
fn cells_of_different_rows_can_be_set_in_any_order() {
    let sheets = [
        "<sheetData></sheetData>",
        "<sheetData><row r=\"2\"><c r=\"B2\"><v>0</v></c></row></sheetData>",
        "<sheetData><row r=\"2\"/><row r=\"7\"><c r=\"A7\"/></row></sheetData>",
        "<sheetData><row r=\"4\"></row></sheetData>",
    ];
    for sheet in sheets {
        let mut one = editor_of(sheet, 2);
        one.set_cell("B2", "1").unwrap();
        one.set_cell("A7", "2").unwrap();
        let mut two = editor_of(sheet, 2);
        two.set_cell("A7", "2").unwrap();
        two.set_cell("B2", "1").unwrap();
        assert_eq!(sheet_text(&one), sheet_text(&two));
        assert_eq!(one.sheet.last_row, two.sheet.last_row);
    }
}

#[test]
fn other_rows_keep_their_bytes() {
    let first = "<row  r=\"2\" ht=\"3\" ><c r=\"Z2\"/> </row>";
    let last = "<row r=\"9\"/>";
    let mut app = editor_of(&format!("<sheetData>{} {}</sheetData>", first, last), 9);
    app.set_cell("B5", "x").unwrap();
    app.set_cell("A5", "=1+1").unwrap();
    assert_eq!(
        sheet_text(&app),
        format!(
            "<sheetData>{} <row r=\"5\"><c r=\"A5\"><f>1+1</f></c>{}</row>{}</sheetData>",
            first,
            cell("B5", "x"),
            last
        )
    );
}

#[test]
fn placing_a_table_is_setting_its_cells() {
    let sheet = "<sheetData><row r=\"2\"><c r=\"A2\"/></row></sheetData>";
    let rows = vec![words(&["1", "x"]), words(&["2", "y"]), words(&["=A1"])];
    let mut placed = editor_of(sheet, 2);
    placed.append_table_at("B2", &rows).unwrap();
    let mut set = editor_of(sheet, 2);
    for (i, row) in rows.iter().enumerate() {
        for (j, value) in row.iter().enumerate() {
            set.set_cell(&format!("{}{}", ["B", "C"][j], i + 2), value).unwrap();
        }
    }
    assert_eq!(sheet_text(&placed), sheet_text(&set));
    assert_eq!(placed.sheet.last_row, set.sheet.last_row);
}

#[test]
fn rows_stay_in_order() {
    let mut app = editor_of("<sheetData></sheetData>", 0);
    for row in [5u32, 1, 12, 3] {
        app.set_cell(&format!("A{}", row), "0").unwrap();
    }
    let rows: Vec<usize> = ["<row r=\"1\">", "<row r=\"3\">", "<row r=\"5\">", "<row r=\"12\">"]
        .iter()
        .map(|tag| sheet_text(&app).find(tag).unwrap())
        .collect();
    assert!(rows.windows(2).all(|w| w[0] < w[1]));
    assert_eq!(app.sheet.last_row, 12);
}

#[test]
fn a_row_that_closes_itself_is_opened() {
    let mut app = editor_of("<sheetData><row r=\"4\" s=\"1\"/><row r=\"5\"><c r=\"A5\"/></row></sheetData>", 2);
    app.set_cell("A4", "1").unwrap();
    assert_eq!(
        sheet_text(&app),
        "<sheetData><row r=\"4\" s=\"1\"><c r=\"A4\"><v>1</v></c></row><row r=\"5\"><c r=\"A5\"/></row></sheetData>"
    );
    assert_eq!(app.sheet.last_row, 4);
    let mut bare = editor_of("<sheetData><row r=\"4\"></sheetData>", 2);
    assert!(matches!(
        bare.set_cell("A4", "1"),
        Err(XlsxError::XmlTagNotFound { tag }) if tag == "</row>"
    ));
    assert_eq!(bare.sheet.last_row, 2);
}

#[test]
fn coordinates_that_are_refused() {
    let mut app = editor_of("<sheetData></sheetData>", 3);
    for coord in ["A", "", "A1B", "A99999999999"] {
        assert!(matches!(
            app.set_cell(coord, "1"),
            Err(XlsxError::InvalidCoordinate { coord: c }) if c == coord
        ));
    }
    assert_eq!(sheet_text(&app), "<sheetData></sheetData>");
    assert_eq!(app.sheet.last_row, 3);
    let mut bare = editor_of("<worksheet/>", 3);
    assert!(matches!(
        bare.set_cell("A9", "1"),
        Err(XlsxError::XmlTagNotFound { tag }) if tag == "</sheetData>"
    ));
    assert_eq!(bare.sheet.last_row, 3);
}

#[test]
fn a_column_that_cannot_be_held() {
    let mut app = editor_of("<sheetData><row r=\"1\"></row></sheetData>", 1);
    assert!(app.try_set_cell("ZZZZZZZZZZ1", "1").is_none());
    assert_eq!(sheet_text(&app), "<sheetData><row r=\"1\"></row></sheetData>");
    assert!(matches!(app.try_set_cell("B1", "1"), Some(Ok(()))));
}

#[test]
fn a_row_is_appended() {
    let mut app = editor_of("<sheetData><row r=\"1\"/></sheetData>", 1);
    app.append_row(&words(&["a", "2", "=A1"])).unwrap();
    assert_eq!(
        sheet_text(&app),
        "<sheetData><row r=\"1\"/><row r=\"2\"><c r=\"A2\" t=\"inlineStr\"><is><t>a</t></is></c><c r=\"B2\"><v>2</v></c><c r=\"C2\"><f>A1</f></c></row></sheetData>"
    );
    assert_eq!(app.sheet.last_row, 2);
    app.append_row(&[]).unwrap();
    assert!(sheet_text(&app).ends_with("<row r=\"3\"></row></sheetData>"));
}

#[test]
fn a_long_row_goes_on_with_double_letters() {
    let mut app = editor_of("<sheetData></sheetData>", 0);
    let long: Vec<String> = (0..800).map(|i| i.to_string()).collect();
    app.append_row(&long).unwrap();
    assert!(sheet_text(&app).contains("<c r=\"Z1\"><v>25</v></c><c r=\"AA1\"><v>26</v></c>"));
    assert!(sheet_text(&app).contains("<c r=\"ZZ1\"><v>701</v></c><c r=\"AAA1\"><v>702</v></c>"));
    assert!(matches!(app.try_append_row(&words(&["x"])), Some(Ok(()))));
    let mut full = editor_of("<sheetData></sheetData>", u32::MAX);
    assert!(full.try_append_row(&words(&["x"])).is_none());
}

#[test]
fn appending_without_an_end_of_the_data() {
    let mut app = editor_of("<sheetData>", 1);
    assert!(matches!(
        app.append_row(&words(&["a"])),
        Err(XlsxError::XmlTagNotFound { tag }) if tag == "</sheetData>"
    ));
    assert_eq!(app.sheet.last_row, 2);
    assert!(matches!(
        app.append_table(&[words(&["a"]), words(&["b"])]),
        Err(XlsxError::XmlTagNotFound { .. })
    ));
    assert_eq!(app.sheet.last_row, 4);
    assert_eq!(sheet_text(&app), "<sheetData>");
}

#[test]
fn a_table_is_appended_row_by_row() {
    let rows = vec![words(&["a", "1"]), words(&[]), words(&["=B1", "x", "2"])];
    let mut table = editor_of("<sheetData></sheetData>", 4);
    table.append_table(&rows).unwrap();
    let mut single = editor_of("<sheetData></sheetData>", 4);
    for row in &rows {
        single.append_row(row).unwrap();
    }
    assert_eq!(sheet_text(&table), sheet_text(&single));
    assert_eq!(table.sheet.last_row, 7);
    let mut placed = editor_of("<sheetData></sheetData>", 4);
    placed.append_table_at("A5", &rows).unwrap();
    assert_eq!(sheet_text(&placed), sheet_text(&table));
    assert_eq!(placed.sheet.last_row, 7);
}

#[test]
fn a_wide_table_goes_on_with_double_letters() {
    let mut app = editor_of("<sheetData></sheetData>", 0);
    let wide: Vec<String> = (0..28).map(|i| i.to_string()).collect();
    assert!(matches!(app.try_append_table(&[wide]), Some(Ok(()))));
    assert!(sheet_text(&app).contains("<c r=\"Z1\"><v>25</v></c><c r=\"AA1\"><v>26</v></c><c r=\"AB1\"><v>27</v></c></row>"));
    let mut full = editor_of("<sheetData></sheetData>", u32::MAX - 1);
    assert!(full.try_append_table(&[words(&["1"]), words(&["2"])]).is_none());
    assert_eq!(full.sheet.last_row, u32::MAX - 1);
}

#[test]
fn a_table_is_placed() {
    let mut app = editor_of("<sheetData><row r=\"1\"><c r=\"A1\"><v>0</v></c></row></sheetData>", 1);
    app.append_table_at("b1", &[words(&["1", "2"]), words(&["3", "4"])]).unwrap();
    assert_eq!(
        sheet_text(&app),
        "<sheetData><row r=\"1\"><c r=\"A1\"><v>0</v></c><c r=\"B1\"><v>1</v></c><c r=\"C1\"><v>2</v></c></row><row r=\"2\"><c r=\"B2\"><v>3</v></c><c r=\"C2\"><v>4</v></c></row></sheetData>"
    );
    assert!(matches!(
        app.append_table_at("B", &[]),
        Err(XlsxError::InvalidCoordinate { coord }) if coord == "B"
    ));
    assert!(matches!(
        app.append_table_at("B4294967296", &[]),
        Err(XlsxError::InvalidCoordinate { .. })
    ));
    assert!(app.try_append_table_at("1", &[]).is_none());
    assert!(app.try_append_table_at("A4294967295", &[words(&["1"]), words(&["2"])]).is_none());
    assert_eq!(app.sheet.last_row, 2);
}

#[test]
fn cells_are_merged() {
    let mut app = editor_of("<worksheet><sheetData></sheetData><x/></worksheet>", 0);
    app.merge_cells("A1:B2").unwrap();
    assert_eq!(
        sheet_text(&app),
        "<worksheet><sheetData></sheetData><mergeCells count=\"1\"><mergeCell ref=\"A1:B2\"/></mergeCells><x/></worksheet>"
    );
    app.merge_cells("C1:D2").unwrap();
    assert_eq!(
        sheet_text(&app),
        "<worksheet><sheetData></sheetData><mergeCells count=\"2\"><mergeCell ref=\"A1:B2\"/><mergeCell ref=\"C1:D2\"/></mergeCells><x/></worksheet>"
    );
}

#[test]
fn merging_that_is_refused() {
    let mut app = editor_of("<worksheet/>", 0);
    assert!(matches!(
        app.merge_cells("A1:B1"),
        Err(XlsxError::XmlTagNotFound { tag }) if tag == "</sheetData>"
    ));
    let mut app = editor_of("</sheetData><mergeCells></mergeCells>", 0);
    assert!(matches!(
        app.merge_cells("A1:B1"),
        Err(XlsxError::AttributeNotFound { attribute }) if attribute == "count"
    ));
    let mut app = editor_of("</sheetData><mergeCells count=\"x\"></mergeCells>", 0);
    assert!(matches!(app.merge_cells("A1:B1"), Err(XlsxError::Parse(_))));
    let mut app = editor_of("</sheetData><mergeCells count=\"4\">", 0);
    assert!(matches!(
        app.merge_cells("A1:B1"),
        Err(XlsxError::XmlTagNotFound { tag }) if tag == "</mergeCells>"
    ));
    assert_eq!(sheet_text(&app), "</sheetData><mergeCells count=\"5\">");
    let mut app = editor_of("", 0);
    app.sheet.xml = b"</sheetData><mergeCells count=\"\xff\"></mergeCells>".to_vec();
    assert!(matches!(app.merge_cells("A1:B1"), Err(XlsxError::Utf8(_))));
    let mut app = editor_of("</sheetData><mergeCells count=\"4294967295\"></mergeCells>", 0);
    assert!(app.try_merge_cells("A1:B1").is_none());
    let mut app = editor_of("</sheetData><mergeCells count=\"1", 0);
    assert!(app.try_merge_cells("A1:B1").is_none());
}

#[test]
fn a_sheet_is_cleared() {
    let mut app = editor_of("<worksheet><sheetData a=\"1\"><row r=\"1\"/><row r=\"2\"/></sheetData></worksheet>", 2);
    app._clear_sheet().unwrap();
    assert_eq!(sheet_text(&app), "<worksheet><sheetData a=\"1\"></sheetData></worksheet>");
    assert_eq!(app.sheet.last_row, 0);
    assert!(matches!(app.try_clear_sheet(), Some(Ok(()))));
    assert_eq!(sheet_text(&app), "<worksheet><sheetData a=\"1\"></sheetData></worksheet>");
    app.append_row(&words(&["7"])).unwrap();
    assert!(sheet_text(&app).contains("<row r=\"1\"><c r=\"A1\"><v>7</v></c></row></sheetData>"));
}

#[test]
fn clearing_that_is_refused() {
    assert!(matches!(
        editor_of("<worksheet/>", 1)._clear_sheet(),
        Err(XlsxError::XmlTagNotFound { tag }) if tag == "<sheetData>"
    ));
    assert!(matches!(
        editor_of("<sheetData", 1)._clear_sheet(),
        Err(XlsxError::MalformedXmlTag { tag }) if tag == "<sheetData>"
    ));
    assert!(matches!(
        editor_of("<sheetData/>", 1)._clear_sheet(),
        Err(XlsxError::XmlTagNotFound { tag }) if tag == "</sheetData>"
    ));
    assert!(editor_of("</sheetData><sheetData>", 1).try_clear_sheet().is_none());
}

fn numbers_after(text: &str, head: &str) -> Vec<String> {
    text.match_indices(head)
        .map(|(at, _)| {
            let from = at + head.len();
            text[from..from + text[from..].find('"').unwrap()].to_string()
        })
        .collect()
}

#[test]
fn the_cells_of_a_row_stay_in_the_order_of_their_columns() {
    let sheet = "<sheetData><row r=\"4\"><c r=\"B4\"/><c r=\"D4\"><v>1</v></c><c r=\"AA4\"/></row></sheetData>";
    let mut app = editor_of(sheet, 4);
    for (coord, expected) in [
        ("C4", vec!["B4", "C4", "D4", "AA4"]),
        ("AB4", vec!["B4", "C4", "D4", "AA4", "AB4"]),
        ("A4", vec!["A4", "B4", "C4", "D4", "AA4", "AB4"]),
        ("D4", vec!["A4", "B4", "C4", "D4", "AA4", "AB4"]),
    ] {
        app.set_cell(coord, "7").unwrap();
        assert_eq!(numbers_after(sheet_text(&app), "<c r=\""), expected);
    }
    assert!(sheet_text(&app).contains(&cell("D4", "7")));
}

#[test]
fn the_rows_are_those_that_there_were_and_that_of_the_cell() {
    let mut app = editor_of("<sheetData><row r=\"2\"/><row r=\"7\"></row></sheetData>", 7);
    app.set_cell("A5", "1").unwrap();
    assert_eq!(numbers_after(sheet_text(&app), "<row r=\""), vec!["2", "5", "7"]);
    app.set_cell("B7", "1").unwrap();
    assert_eq!(numbers_after(sheet_text(&app), "<row r=\""), vec!["2", "5", "7"]);
    app.set_cell("C9", "1").unwrap();
    assert_eq!(numbers_after(sheet_text(&app), "<row r=\""), vec!["2", "5", "7", "9"]);
    assert_eq!(app.sheet.last_row, 9);
}

#[test]
fn a_table_over_rows_that_are_there_leaves_the_other_cells() {
    let sheet = "<sheetData><row r=\"1\"><c r=\"A1\" s=\"3\"><v>9</v></c><c r=\"B1\"><v>8</v></c></row><row r=\"3\"><c r=\"D3\"><v>7</v></c></row></sheetData>";
    let rows = vec![words(&["1", "2"]), words(&["3"]), words(&["4", "5"]), words(&["6"])];
    let mut placed = editor_of(sheet, 3);
    placed.append_table_at("B1", &rows).unwrap();
    let expected = format!(
        "<sheetData><row r=\"1\"><c r=\"A1\" s=\"3\"><v>9</v></c>{}{}</row><row r=\"2\">{}</row><row r=\"3\">{}{}<c r=\"D3\"><v>7</v></c></row><row r=\"4\">{}</row></sheetData>",
        cell("B1", "1"),
        cell("C1", "2"),
        cell("B2", "3"),
        cell("B3", "4"),
        cell("C3", "5"),
        cell("B4", "6")
    );
    assert_eq!(sheet_text(&placed), expected);
    assert_eq!(placed.sheet.last_row, 4);
    let mut set = editor_of(sheet, 3);
    for (coord, value) in
        [("B1", "1"), ("C1", "2"), ("B2", "3"), ("B3", "4"), ("C3", "5"), ("B4", "6")]
    {
        set.set_cell(coord, value).unwrap();
    }
    assert_eq!(sheet_text(&set), expected);
}
