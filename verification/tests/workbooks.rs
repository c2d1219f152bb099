use polars_core::frame::column::Column;
use polars_core::frame::DataFrame;
use xlsx_editor::editor::XlsxEditor;
use xlsx_editor::error::XlsxError;
use xlsx_editor::package::Step;
use xlsx_editor::workbook::{scan, Part};

const WORKBOOK: &str = "<workbook><sheets><sheet name=\"Sheet1\" sheetId=\"1\" r:id=\"rId1\"/></sheets></workbook>";
const RELS: &str = "<Relationships><Relationship Id=\"rId1\" Target=\"worksheets/sheet1.xml\"/></Relationships>";
const STYLES: &str = "<styleSheet><fonts count=\"1\"><font><sz val=\"11\"/></font></fonts><fills count=\"1\"><fill/></fills><cellXfs count=\"1\"><xf numFmtId=\"0\" fontId=\"0\" fillId=\"0\"/></cellXfs></styleSheet>";

fn part(name: &str, content: &str) -> Part {
    Part { name: name.to_string(), content: content.as_bytes().to_vec() }
}

fn workbook_of(sheet: &str) -> Vec<Part> {
    vec![
        part("[Content_Types].xml", "<Types/>"),
        part("xl/workbook.xml", WORKBOOK),
        part("xl/_rels/workbook.xml.rels", RELS),
        part("xl/styles.xml", STYLES),
        part("xl/worksheets/sheet1.xml", sheet),
    ]
}

fn names_of(parts: &[Part]) -> Vec<String> {
    parts.iter().map(|p| p.name.clone()).collect()
}

fn saved(editor: &XlsxEditor, parts: &[Part]) -> Vec<Part> {
    let names = names_of(parts);
    editor
        .save(&names)
        .into_iter()
        .map(|step| match step {
            Step::Copy(i) => Part { name: parts[i].name.clone(), content: parts[i].content.clone() },
            Step::Write(part) => part,
        })
        .collect()
}

fn content<'a>(parts: &'a [Part], name: &str) -> &'a str {
    let part = parts.iter().find(|p| p.name == name).unwrap();
    std::str::from_utf8(&part.content).unwrap()
}

fn xml(editor: &XlsxEditor) -> &str {
    std::str::from_utf8(&editor.sheet.xml).unwrap()
}

fn styles(editor: &XlsxEditor) -> &str {
    std::str::from_utf8(&editor.styles_xml).unwrap()
}

const EMPTY: &str = "<worksheet><sheetData></sheetData></worksheet>";

fn table(rows: &[&[&str]]) -> Vec<Vec<String>> {
    rows.iter().map(|row| row.iter().map(|cell| cell.to_string()).collect()).collect()
}

fn text_cell(name: &str, text: &str) -> String {
    format!("<c r=\"{}\" t=\"inlineStr\"><is><t>{}</t></is></c>", name, text)
}

fn number_cell(name: &str, number: &str) -> String {
    format!("<c r=\"{}\"><v>{}</v></c>", name, number)
}

#[test]
fn test_insert_table_at() {
    let sheet = "<worksheet><sheetData><row r=\"1\"><c r=\"A1\"><v>1</v></c></row><row r=\"4\"><c r=\"A4\"><v>4</v></c><c r=\"E4\"><v>9</v></c></row></sheetData></worksheet>";
    let parts = workbook_of(sheet);
    let sheet_names = scan(&parts).unwrap();
    let data = table(&[
        &["Name", "Score", "Status", "Number"],
        &["Alice", "123", "OK", "1"],
        &["Bob", "456", "FAIL", "2"],
    ]);

    let mut app = XlsxEditor::open(&parts, &sheet_names[0]).unwrap();
    app.append_table_at("A4", &data).unwrap();
    let out = saved(&app, &parts);

    let row4 = text_cell("A4", "Name")
        + &text_cell("B4", "Score")
        + &text_cell("C4", "Status")
        + &text_cell("D4", "Number")
        + "<c r=\"E4\"><v>9</v></c>";
    let row5 = text_cell("A5", "Alice")
        + &number_cell("B5", "123")
        + &text_cell("C5", "OK")
        + &number_cell("D5", "1");
    let row6 = text_cell("A6", "Bob")
        + &number_cell("B6", "456")
        + &text_cell("C6", "FAIL")
        + &number_cell("D6", "2");
    let expected = format!(
        "<worksheet><sheetData><row r=\"1\"><c r=\"A1\"><v>1</v></c></row><row r=\"4\">{}</row><row r=\"5\">{}</row><row r=\"6\">{}</row></sheetData></worksheet>",
        row4, row5, row6
    );
    assert_eq!(content(&out, "xl/worksheets/sheet1.xml"), expected);
    assert_eq!(app.sheet.last_row, 6);
}

#[test]
fn test_insert_cells() {
    let parts = workbook_of("<worksheet><sheetData><row r=\"3\"></row><row r=\"30\"></row></sheetData></worksheet>");
    let sheet_names = scan(&parts).unwrap();
    let mut app = XlsxEditor::open(&parts, &sheet_names[0]).unwrap();
    app.set_cell("A25", "Hello").unwrap();
    app.set_cell("B25", "World").unwrap();
    app.set_cell("C25", "!").unwrap();
    let out = saved(&app, &parts);
    let row = text_cell("A25", "Hello") + &text_cell("B25", "World") + &text_cell("C25", "!");
    assert_eq!(
        content(&out, "xl/worksheets/sheet1.xml"),
        format!(
            "<worksheet><sheetData><row r=\"3\"></row><row r=\"25\">{}</row><row r=\"30\"></row></sheetData></worksheet>",
            row
        )
    );
    assert_eq!(app.sheet.last_row, 30);
}

const LAST_ROWS: &str = "<worksheet><sheetData>\
<row r=\"1\"><c r=\"A1\"><v>1</v></c><c r=\"B1\"/><c r=\"C1\"/><c r=\"D1\"/></row>\
<row r=\"4\"><c r=\"A4\"><v>1</v></c></row>\
<row r=\"5\"><c r=\"B5\"><v>1</v></c></row>\
<row r=\"8\"><c r=\"C8\"><v>1</v></c><c r=\"D8\"><v>1</v></c></row>\
</sheetData></worksheet>";

#[test]
fn test_get_last_row_index() {
    let parts = workbook_of(LAST_ROWS);
    let sheet_names = scan(&parts).unwrap();
    let app = XlsxEditor::open(&parts, &sheet_names[0]).unwrap();
    assert_eq!(app.get_last_row_index("A").unwrap(), 4);
    assert_eq!(app.get_last_row_index("B").unwrap(), 5);
    assert_eq!(app.get_last_row_index("C").unwrap(), 8);
    assert_eq!(app.get_last_row_index("D").unwrap(), 8);
}

#[test]
fn test_get_last_roww_index() {
    let parts = workbook_of(LAST_ROWS);
    let sheet_names = scan(&parts).unwrap();
    let app = XlsxEditor::open(&parts, &sheet_names[0]).unwrap();
    assert_eq!(app.get_last_roww_index("A:D").unwrap(), vec![4, 5, 8, 8]);
}

#[test]
fn cells_without_data_do_not_count() {
    let sheet = "<sheetData><row r=\"2\"><c r=\"A2\"><v>1</v></c><c r=\"B2\"><f t=\"shared\" si=\"0\"/></c><c r=\"C2\" t=\"inlineStr\"><is><t>x</t></is></c></row><row r=\"9\"><c r=\"A9\" s=\"1\"/><c r=\"B9\" s=\"1\"></c><c r=\"C9\" t=\"inlineStr\"><is><t></t></is></c></row></sheetData>";
    let parts = workbook_of(sheet);
    let app = XlsxEditor::open(&parts, "Sheet1").unwrap();
    assert_eq!(app.get_last_row_index("A").unwrap(), 2);
    assert_eq!(app.get_last_row_index("A,B,C").unwrap(), 2);
    assert_eq!(app.get_last_roww_index("A:C").unwrap(), vec![2, 2, 2]);
}

#[test]
fn a_file_that_was_written_over_its_source_is_saved_again() {
    let parts = workbook_of(EMPTY);
    let names = names_of(&parts);
    let sheets = scan(&parts).unwrap();
    let mut app = XlsxEditor::open(&parts, "Sheet1").unwrap();
    app.add_worksheet(&sheets, &names, "New").unwrap().set_cell("A1", "1").unwrap();
    let once = saved(&app, &parts);
    app.set_cell("A2", "2").unwrap();
    let twice = saved(&app, &once);
    assert!(content(&twice, "xl/worksheets/sheet2.xml").contains("<row r=\"2\"><c r=\"A2\"><v>2</v></c></row>"));
    assert_eq!(names_of(&twice), names_of(&once));
}

#[test]
fn last_rows_of_several_columns() {
    let parts = workbook_of(LAST_ROWS);
    let app = XlsxEditor::open(&parts, "Sheet1").unwrap();
    assert_eq!(app.get_last_row_index("A, b").unwrap(), 5);
    assert_eq!(app.get_last_row_index("Z").unwrap(), 0);
    assert_eq!(app.get_last_row_index("").unwrap(), 0);
    assert_eq!(app.get_last_roww_index(" b : c ").unwrap(), vec![5, 8]);
    assert_eq!(app.get_last_roww_index("D:F").unwrap(), vec![8, 0, 0]);
    assert!(matches!(app.get_last_roww_index("A"), Err(XlsxError::InvalidRange { range }) if range == "A"));
    assert!(matches!(app.get_last_roww_index("A:B:C"), Err(XlsxError::InvalidRange { .. })));
    assert!(matches!(app.get_last_roww_index("C:A"), Err(XlsxError::InvalidRangeOrder)));
    assert!(app.try_get_last_roww_index("1:A").is_none());
    assert_eq!(app.try_get_last_roww_index("A:A").unwrap().unwrap(), vec![4]);
}

#[test]
fn add_new_worksheet() {
    let parts = workbook_of(EMPTY);
    let names = names_of(&parts);
    let sheets = scan(&parts).unwrap();

    let mut app = XlsxEditor::open(&parts, &sheets[0]).unwrap();
    let head = table(&[&["Name", "Score", "Status", "Number"]]);
    app.append_table_at("A1", &head).unwrap();
    app.add_worksheet(&sheets, &names, "NewSheet").unwrap().set_cell("A1", "123").unwrap();
    app.add_worksheet(&sheets, &names, "NewSheet2").unwrap().append_table_at("A1", &head).unwrap();
    let out = saved(&app, &parts);
    let sheet_names = scan(&out).unwrap();

    println!("Sheet names: {:#?}", sheet_names);
    assert!(sheet_names.contains(&"NewSheet".to_owned()));
    assert!(sheet_names.contains(&"NewSheet2".to_owned()));
    assert_eq!(sheet_names, vec!["NewSheet2", "NewSheet", "Sheet1"]);

    let first = XlsxEditor::open_sheet(&out, 1).unwrap();
    let row = text_cell("A1", "Name")
        + &text_cell("B1", "Score")
        + &text_cell("C1", "Status")
        + &text_cell("D1", "Number");
    assert_eq!(
        xml(&first),
        format!("<worksheet><sheetData><row r=\"1\">{}</row></sheetData></worksheet>", row)
    );
    let second = XlsxEditor::open_sheet(&out, 2).unwrap();
    assert!(xml(&second).contains("<row r=\"1\"><c r=\"A1\"><v>123</v></c></row></sheetData>"));
    let third = XlsxEditor::open_sheet(&out, 3).unwrap();
    assert!(xml(&third).contains(&row));
    assert_eq!(xml(&XlsxEditor::open(&out, "NewSheet2").unwrap()), xml(&first));
    assert_eq!(xml(&XlsxEditor::open(&out, "Sheet1").unwrap()), xml(&third));
    assert_eq!(
        content(&out, "xl/workbook.xml"),
        "<workbook><sheets>\n  <sheet name=\"NewSheet2\" sheetId=\"3\" r:id=\"rId3\"/>\n  <sheet name=\"NewSheet\" sheetId=\"2\" r:id=\"rId2\"/><sheet name=\"Sheet1\" sheetId=\"1\" r:id=\"rId1\"/></sheets></workbook>"
    );
    assert_eq!(
        content(&out, "xl/_rels/workbook.xml.rels"),
        "<Relationships><Relationship Id=\"rId1\" Target=\"worksheets/sheet1.xml\"/><Relationship Id=\"rId2\" Type=\"http://schemas.openxmlformats.org/officeDocument/2006/relationships/worksheet\" Target=\"worksheets/sheet2.xml\"/><Relationship Id=\"rId3\" Type=\"http://schemas.openxmlformats.org/officeDocument/2006/relationships/worksheet\" Target=\"worksheets/sheet3.xml\"/></Relationships>"
    );
    assert_eq!(content(&out, "[Content_Types].xml"), "<Types/>");
    assert_eq!(out.len(), parts.len() + 2);
}

#[test]
fn set_number_format() {
    let sheet = "<worksheet><sheetData><row r=\"3\"><c r=\"B3\" s=\"0\"><v>1</v></c></row><row r=\"4\"></row><row r=\"5\"><c r=\"B5\"><v>1</v></c><c r=\"C5\" s=\"4\"/></row></sheetData></worksheet>";
    let parts = workbook_of(sheet);
    let sheet_names = scan(&parts).unwrap();
    let mut app = XlsxEditor::open(&parts, &sheet_names[0]).unwrap();
    app.set_number_format("A9", "#,##0.00").unwrap();
    app.set_number_format("B3:C5", "#,##0.00").unwrap();
    let out = saved(&app, &parts);
    assert_eq!(
        content(&out, "xl/worksheets/sheet1.xml"),
        "<worksheet><sheetData>\
<row r=\"3\"><c r=\"B3\" s=\"1\"><v>1</v></c><c r=\"C3\" s=\"1\"/></row>\
<row r=\"4\"><c r=\"B4\" s=\"1\"/><c r=\"C4\" s=\"1\"/></row>\
<row r=\"5\"><c r=\"B5\" s=\"1\"><v>1</v></c><c r=\"C5\" s=\"1\"/></row>\
<row r=\"9\"><c r=\"A9\" t=\"inlineStr\" s=\"1\"><is><t></t></is></c></row>\
</sheetData></worksheet>"
    );
    assert_eq!(
        content(&out, "xl/styles.xml"),
        "<styleSheet><numFmts count=\"1\"><numFmt numFmtId=\"164\" formatCode=\"#,##0.00\"/></numFmts><fonts count=\"1\"><font><sz val=\"11\"/></font></fonts><fills count=\"1\"><fill/></fills><cellXfs count=\"2\"><xf numFmtId=\"0\" fontId=\"0\" fillId=\"0\"/><xf numFmtId=\"164\" applyNumberFormat=\"1\" borderId=\"0\" xfId=\"0\"></xf></cellXfs></styleSheet>"
    );
}

#[test]
fn set_style() {
    let sheet = "<worksheet><sheetData><row r=\"1\"><c r=\"A1\"><v>1</v></c></row></sheetData></worksheet>";
    let parts = workbook_of(sheet);
    let mut xl = XlsxEditor::open(&parts, "Sheet1").unwrap();

    xl.set_fill("B14:B18", "FFFF00")
        .unwrap()
        .set_font("D4:D8", "Arial", "12", true, false)
        .unwrap()
        .set_fill("E4:E8", "FFCCCC")
        .unwrap()
        .set_font("A1:C3", "Calibri", "10", false, true)
        .unwrap()
        .set_fill("A1:C3", "FFFF00")
        .unwrap()
        .merge_cells("B12:D12")
        .unwrap();

    let out = saved(&xl, &parts);
    let text = content(&out, "xl/worksheets/sheet1.xml");
    assert!(text.contains("<c r=\"B14\" t=\"inlineStr\" s=\"1\"><is><t></t></is></c>"));
    assert!(text.contains("<c r=\"D4\" t=\"inlineStr\" s=\"2\"><is><t></t></is></c>"));
    assert!(text.contains("<c r=\"E4\" s=\"3\"/>"));
    assert!(text.contains("<c r=\"A1\" s=\"5\"><v>1</v></c>"));
    assert!(text.contains("<c r=\"C3\" s=\"5\"/>"));
    assert!(text.ends_with("</sheetData><mergeCells count=\"1\"><mergeCell ref=\"B12:D12\"/></mergeCells></worksheet>"));
    let sheet_styles = content(&out, "xl/styles.xml");
    assert!(sheet_styles.contains("<fonts count=\"3\"><font><sz val=\"11\"/></font><font><b/><sz val=\"12\"/><name val=\"Arial\"/></font><font><i/><sz val=\"10\"/><name val=\"Calibri\"/></font></fonts>"));
    assert!(sheet_styles.contains("<fills count=\"4\"><fill/><fill><patternFill patternType=\"solid\"><fgColor rgb=\"FFFF00\"/><bgColor indexed=\"64\"/></patternFill></fill>"));
    assert!(sheet_styles.contains("<xf fontId=\"2\" applyFont=\"1\" fillId=\"3\" applyFill=\"1\" numFmtId=\"0\" borderId=\"0\" xfId=\"0\"></xf></cellXfs>"));
}

#[test]
fn set_column_number_format() {
    let sheet = "<worksheet><sheetData><row r=\"1\"><c r=\"A1\"><v>1</v></c><c r=\"B1\" s=\"0\"/></row><row r=\"2\"><c r=\"A2\" t=\"n\"><v>2</v></c><c r=\"AA2\"/></row></sheetData></worksheet>";
    let parts = workbook_of(sheet);
    let mut xl = XlsxEditor::open(&parts, "Sheet1").unwrap();

    xl.set_number_format("A:", "#,##0.00").unwrap();
    xl.set_number_format("B:", "#,##0.00").unwrap();
    xl.set_number_format("C:", "#,##0.00").unwrap();
    xl.set_number_format("G:", "#,##0.00").unwrap();

    let out = saved(&xl, &parts);
    assert_eq!(
        content(&out, "xl/worksheets/sheet1.xml"),
        "<worksheet><cols><col min=\"7\" max=\"7\" style=\"1\"/><col min=\"3\" max=\"3\" style=\"1\"/><col min=\"2\" max=\"2\" style=\"1\"/><col min=\"1\" max=\"1\" style=\"1\"/></cols><sheetData><row r=\"1\"><c r=\"A1\" s=\"1\"><v>1</v></c><c r=\"B1\" s=\"1\"/></row><row r=\"2\"><c r=\"A2\" t=\"n\" s=\"1\"><v>2</v></c><c r=\"AA2\"/></row></sheetData></worksheet>"
    );
}

#[test]
fn test_write_polars() {
    let parts = workbook_of(EMPTY);
    let sheet_names = scan(&parts).unwrap();
    let mut app = XlsxEditor::open(&parts, &sheet_names[0]).unwrap();
    let s1 = Column::new("Fruit".into(), ["Apple", "Apple", "Pear"]);
    let s2 = Column::new("Color".into(), ["Red", "Yellow", "Green"]);

    let df: DataFrame = DataFrame::new(vec![s1, s2]).unwrap();
    app.with_polars(&df, None).unwrap();
    let out = saved(&app, &parts);
    let row = |n: u32, a: &str, b: &str| {
        format!(
            "<row r=\"{}\">{}{}</row>",
            n,
            text_cell(&format!("A{}", n), a),
            text_cell(&format!("B{}", n), b)
        )
    };
    let rows = row(1, "Fruit", "Color")
        + &row(2, "Apple", "Red")
        + &row(3, "Apple", "Yellow")
        + &row(4, "Pear", "Green");
    assert_eq!(
        content(&out, "xl/worksheets/sheet1.xml"),
        format!("<worksheet><sheetData>{}</sheetData></worksheet>", rows)
    );
}

#[test]
fn data_frame_at_a_cell() {
    let parts = workbook_of(EMPTY);
    let mut app = XlsxEditor::open(&parts, "Sheet1").unwrap();
    let names = Column::new("Say \"hi\"".into(), ["a \"b\" c", "=A1"]);
    let numbers = Column::new("N".into(), [1i64, 2]);
    let df = DataFrame::new(vec![names, numbers]).unwrap();
    assert!(matches!(app.try_with_polars(&df, Some("C2")), Some(Ok(()))));
    assert_eq!(
        xml(&app),
        "<worksheet><sheetData>\
<row r=\"2\"><c r=\"C2\" t=\"inlineStr\"><is><t>Say &quot;hi&quot;</t></is></c><c r=\"D2\" t=\"inlineStr\"><is><t>N</t></is></c></row>\
<row r=\"3\"><c r=\"C3\" t=\"inlineStr\"><is><t>a b c</t></is></c><c r=\"D3\"><v>1</v></c></row>\
<row r=\"4\"><c r=\"C4\"><f>A1</f></c><c r=\"D4\"><v>2</v></c></row>\
</sheetData></worksheet>"
    );
    assert!(app.try_with_polars(&df, Some("2")).is_none());
    assert_eq!(app.sheet.last_row, 4);
    assert!(matches!(app.try_with_polars(&df, Some("C")), Some(Err(XlsxError::InvalidCoordinate { .. }))));
    assert_eq!(xml(&app), EMPTY);
    app.sheet.xml = b"<worksheet/>".to_vec();
    assert!(matches!(app.try_with_polars(&df, None), Some(Err(XlsxError::XmlTagNotFound { tag })) if tag == "<sheetData>"));
}

#[test]
fn values_of_a_data_frame_are_shown() {
    let parts = workbook_of(EMPTY);
    let mut app = XlsxEditor::open(&parts, "Sheet1").unwrap();
    let flags = Column::new("B".into(), [Some(true), Some(false), None]);
    let numbers = Column::new("N".into(), [Some(-1234567i64), None, Some(0)]);
    let df = DataFrame::new(vec![flags, numbers]).unwrap();
    app.with_polars(&df, None).unwrap();
    let rows = [("true", "-1234567"), ("false", "null"), ("null", "0")];
    let mut expected = format!("<row r=\"1\">{}{}</row>", text_cell("A1", "B"), text_cell("B1", "N"));
    for (i, (flag, number)) in rows.iter().enumerate() {
        let right = if *number == "null" {
            text_cell(&format!("B{}", i + 2), number)
        } else {
            number_cell(&format!("B{}", i + 2), number)
        };
        expected += &format!("<row r=\"{}\">{}{}</row>", i + 2, text_cell(&format!("A{}", i + 2), flag), right);
    }
    assert_eq!(xml(&app), format!("<worksheet><sheetData>{}</sheetData></worksheet>", expected));
}

#[test]
fn a_large_number_that_fills_a_column_is_shown() {
    let parts = workbook_of(EMPTY);
    let mut app = XlsxEditor::open(&parts, "Sheet1").unwrap();
    let scalar = polars_core::scalar::Scalar::new(
        polars_core::datatypes::DataType::Int128,
        polars_core::datatypes::AnyValue::Int128(170141183460469231731687303715884105727),
    );
    let column = Column::new_scalar("N".into(), scalar, 1);
    let df = DataFrame::new(vec![column]).unwrap();
    app.with_polars(&df, None).unwrap();
    assert!(xml(&app).contains("<c r=\"A2\"><v>170141183460469231731687303715884105727</v></c>"));
}

#[test]
fn a_data_frame_takes_the_place_of_the_rows() {
    let sheet = "<worksheet><sheetData><row r=\"1\"><c r=\"A1\"><v>7</v></c><c r=\"C1\"><v>8</v></c></row><row r=\"9\"/></sheetData></worksheet>";
    let parts = workbook_of(sheet);
    let mut app = XlsxEditor::open(&parts, "Sheet1").unwrap();
    let df = DataFrame::new(vec![Column::new("N".into(), [1i64])]).unwrap();
    app.with_polars(&df, None).unwrap();
    let written = "<worksheet><sheetData><row r=\"1\"><c r=\"A1\" t=\"inlineStr\"><is><t>N</t></is></c></row><row r=\"2\"><c r=\"A2\"><v>1</v></c></row></sheetData></worksheet>";
    assert_eq!(xml(&app), written);
    assert_eq!(app.sheet.last_row, 2);
    app.with_polars(&df, None).unwrap();
    assert_eq!(xml(&app), written);
    let rows = table(&[&["x"]]);
    assert!(matches!(app.try_overwrite_with("B3", &rows), Some(Ok(()))));
    assert_eq!(
        xml(&app),
        "<worksheet><sheetData><row r=\"3\"><c r=\"B3\" t=\"inlineStr\"><is><t>x</t></is></c></row></sheetData></worksheet>"
    );
    app.sheet.xml = b"</sheetData><sheetData>".to_vec();
    assert!(app.try_overwrite_with("B3", &rows).is_none());
}

#[test]
fn missing_files_are_named() {
    let mut parts = workbook_of(EMPTY);
    assert!(matches!(
        XlsxEditor::open_sheet(&parts, 2),
        Err(XlsxError::FileNotFound { file }) if file == "xl/worksheets/sheet2.xml"
    ));
    assert!(matches!(
        XlsxEditor::open(&parts, "Nope"),
        Err(XlsxError::SheetNotFound { name }) if name == "Nope"
    ));
    parts.remove(2);
    assert!(matches!(
        XlsxEditor::open_sheet(&parts, 1),
        Err(XlsxError::FileNotFound { file }) if file == "xl/_rels/workbook.xml.rels"
    ));
    parts.remove(1);
    assert!(matches!(
        XlsxEditor::open_sheet(&parts, 1),
        Err(XlsxError::FileNotFound { file }) if file == "xl/workbook.xml"
    ));
    assert!(matches!(
        scan(&parts),
        Err(XlsxError::FileNotFound { file }) if file == "xl/workbook.xml"
    ));
    parts.remove(1);
    assert!(matches!(
        XlsxEditor::open_sheet(&parts, 1),
        Err(XlsxError::FileNotFound { file }) if file == "xl/styles.xml"
    ));
}

#[test]
fn the_last_row_is_that_of_the_last_numbered_tag() {
    let parts = workbook_of("<worksheet><sheetData><row r=\"7\"/><row r=\"5\"></row><row r=\"x\"/><row/></sheetData></worksheet>");
    let app = XlsxEditor::open_sheet(&parts, 1).unwrap();
    assert_eq!(app.sheet.last_row, 5);
    assert_eq!(app.sheet_path, "xl/worksheets/sheet1.xml");
    assert!(app.new_files.is_empty());
}

#[test]
fn saving_and_opening_gives_back_what_was_edited() {
    let parts = workbook_of(EMPTY);
    let mut app = XlsxEditor::open(&parts, "Sheet1").unwrap();
    app.set_cell("B2", "x").unwrap();
    app.set_fill("B2", "FF0000").unwrap();
    let out = saved(&app, &parts);
    let again = XlsxEditor::open(&out, "Sheet1").unwrap();
    assert_eq!(xml(&again), xml(&app));
    assert_eq!(styles(&again), styles(&app));
    assert_eq!(again.sheet.last_row, 2);
    assert_eq!(content(&out, "[Content_Types].xml"), "<Types/>");
    assert_eq!(names_of(&out), names_of(&parts));
}

#[test]
fn one_worksheet_alone_is_replaced() {
    let names = vec!["a".to_string(), "s".to_string()];
    let steps = XlsxEditor::_save_in_ram(&names, "s", b"new");
    assert!(matches!(&steps[0], Step::Copy(0)));
    assert!(matches!(&steps[1], Step::Write(p) if p.name == "s" && p.content == b"new"));
    assert_eq!(steps.len(), 2);
}

#[test]
fn a_worksheet_that_cannot_be_added() {
    let parts = workbook_of(EMPTY);
    let names = names_of(&parts);
    let sheets = scan(&parts).unwrap();
    let mut app = XlsxEditor::open(&parts, "Sheet1").unwrap();
    assert!(matches!(
        app.add_worksheet(&sheets, &names, "Sheet1"),
        Err(XlsxError::SheetAlreadyExists { name }) if name == "Sheet1"
    ));
    app.rels_xml = b"<Relationships/>".to_vec();
    assert!(matches!(
        app.add_worksheet(&sheets, &names, "S"),
        Err(XlsxError::XmlTagNotFound { tag }) if tag == "</Relationships>"
    ));
    assert_eq!(app.workbook_xml, WORKBOOK.as_bytes());
    app.workbook_xml = b"<workbook/>".to_vec();
    assert!(matches!(
        app.add_worksheet(&sheets, &names, "S"),
        Err(XlsxError::XmlTagNotFound { tag }) if tag == "</sheets>"
    ));
    app.workbook_xml = b"</sheets>".to_vec();
    assert!(matches!(
        app.add_worksheet(&sheets, &names, "S"),
        Err(XlsxError::XmlTagNotFound { tag }) if tag == "<sheets>"
    ));
    app.workbook_xml = b"<sheets><sheet name=\"a\" sheetId=\"4294967295\"/></sheets>".to_vec();
    assert!(app.try_add_worksheet(&sheets, &names, "S").is_none());
    assert_eq!(app.sheet_path, "xl/worksheets/sheet1.xml");
}

#[test]
fn new_numbers_are_larger_than_all_others() {
    let mut parts = workbook_of(EMPTY);
    parts.push(part("xl/worksheets/sheet12.xml", ""));
    parts.push(part("xl/worksheets/sheetX.xml", ""));
    let names = names_of(&parts);
    let sheets = scan(&parts).unwrap();
    let mut app = XlsxEditor::open(&parts, "Sheet1").unwrap();
    app.workbook_xml = b"<sheets><sheet sheetId=\"9\"/><sheet sheetId=\"x\"/><sheet/></sheets>".to_vec();
    app.rels_xml = b"<Relationships><Relationship Id=\"rId7\"/><Relationship Id=\"id99\"/></Relationships>".to_vec();
    assert!(matches!(app.try_add_worksheet(&sheets, &names, "S"), Some(Ok(()))));
    assert_eq!(app.sheet_path, "xl/worksheets/sheet13.xml");
    assert_eq!(
        std::str::from_utf8(&app.workbook_xml).unwrap(),
        "<sheets>\n  <sheet name=\"S\" sheetId=\"10\" r:id=\"rId8\"/><sheet sheetId=\"9\"/><sheet sheetId=\"x\"/><sheet/></sheets>"
    );
    assert_eq!(
        xml(&app),
        "<?xml version=\"1.0\" encoding=\"UTF-8\" standalone=\"yes\"?>\n        <worksheet xmlns=\"http://schemas.openxmlformats.org/spreadsheetml/2006/main\">\n          <sheetData> </sheetData>\n        </worksheet>"
    );
}
