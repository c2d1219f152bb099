use xlsx_editor::editor::XlsxEditor;
use xlsx_editor::error::XlsxError;
use xlsx_editor::paint::{cells_named, try_paint_tags};
use xlsx_editor::pattern::Match;
use xlsx_editor::sheet::Sheet;
use xlsx_editor::styles::{
    parts_of_style, scan_formats, style_text, try_add_element, try_ensure_format, try_fitting_style,
    xf_components, AlignSpec,
};
use xlsx_editor::tags::{find_style, find_tag_of, try_insert_or_replace_attr};
use xlsx_editor::workbook::{
    largest_relation_among, largest_sheet_id_among, last_row_among, names_of_sheets, Part,
};
use xlsx_editor::xml::{elements_among, events_of, filled_cells_among, listed_among, text_of_attribute, Attribute, Tag, XmlEvent};

const PLAIN: &str = "<styleSheet><fonts count=\"1\"><font/></fonts><fills count=\"1\"><fill/></fills><cellXfs count=\"1\"><xf/></cellXfs></styleSheet>";

fn book(sheet: &str, styles: &str) -> XlsxEditor {
    let new_files: Vec<Part> = Vec::new();
    XlsxEditor {
        sheet_path: "xl/worksheets/sheet1.xml".to_string(),
        sheet: Sheet { xml: sheet.as_bytes().to_vec(), last_row: 0 },
        styles_xml: styles.as_bytes().to_vec(),
        workbook_xml: Vec::new(),
        rels_xml: Vec::new(),
        new_files,
    }
}

fn sheet_of(editor: &XlsxEditor) -> &str {
    std::str::from_utf8(&editor.sheet.xml).unwrap()
}

fn styles_of(editor: &XlsxEditor) -> &str {
    std::str::from_utf8(&editor.styles_xml).unwrap()
}

fn tag(name: &str, attributes: &[(&str, &str)]) -> Tag {
    Tag {
        name: name.as_bytes().to_vec(),
        closed: true,
        attributes: attributes
            .iter()
            .map(|(k, v)| Some(Attribute { key: k.as_bytes().to_vec(), value: v.as_bytes().to_vec() }))
            .collect(),
    }
}

#[test]
fn events_of_a_document() {
    let events = events_of(b"<?xml version=\"1.0\"?><a x=\"1\" y='2'><b/>text</a>");
    assert_eq!(events.len(), 5);
    assert!(matches!(&events[0], XmlEvent::Other));
    match &events[1] {
        XmlEvent::Open(t) => {
            assert_eq!(t.name, b"a");
            assert!(!t.closed);
            assert_eq!(text_of_attribute(t, "x").unwrap(), "1");
            assert_eq!(text_of_attribute(t, "y").unwrap(), "2");
            assert!(text_of_attribute(t, "z").is_none());
        },
        _ => panic!(),
    }
    assert!(matches!(&events[2], XmlEvent::Open(t) if t.name == b"b" && t.closed));
    assert!(matches!(&events[3], XmlEvent::Text));
    assert!(matches!(&events[4], XmlEvent::End(n) if n == b"a"));
    assert_eq!(events_of(b"").len(), 0);
    assert_eq!(events_of(b"  <a></b>").len(), 1);
}

#[test]
fn tags_are_picked_by_name() {
    let events = events_of(b"<cellXfs/><xf/><cellXfs><xf a=\"1\"/><y/><xf a=\"2\"></xf></cellXfs><cellXfs><xf a=\"3\"/></cellXfs>");
    assert_eq!(elements_among(&events, "xf").len(), 4);
    assert_eq!(elements_among(&events, "y").len(), 1);
    let first = listed_among(&events, "cellXfs", "xf", true);
    assert_eq!(first.len(), 2);
    assert_eq!(text_of_attribute(first[1], "a").unwrap(), "2");
    assert_eq!(listed_among(&events, "cellXfs", "xf", false).len(), 3);
}

#[test]
fn cells_that_hold_something_are_picked() {
    let events = events_of(b"<c r=\"A1\"/><c r=\"B1\"><v>1</v></c><c r=\"C1\"><is><t>x</t><t>y</t></is></c><c r=\"D1\"><f/></c><c r=\"E1\"><v> </v></c>text");
    let names: Vec<String> = filled_cells_among(&events).iter().map(|t| text_of_attribute(t, "r").unwrap()).collect();
    assert_eq!(names, vec!["B1", "C1", "D1"]);
}

#[test]
fn tags_say_what_they_hold() {
    let a = tag("sheet", &[("name", "A"), ("sheetId", "3")]);
    let b = tag("sheet", &[("sheetId", "x")]);
    let c = tag("sheet", &[("name", "C"), ("sheetId", "12")]);
    let sheets = [&a, &b, &c];
    assert_eq!(names_of_sheets(&sheets), vec!["A", "C"]);
    assert_eq!(largest_sheet_id_among(&sheets), 12);
    let r = tag("Relationship", &[("Id", "rId5")]);
    let s = tag("Relationship", &[("Id", "x9")]);
    assert_eq!(largest_relation_among(&[&r, &s]), 5);
    let one = tag("row", &[("r", "9")]);
    let two = tag("row", &[("r", "4")]);
    assert_eq!(last_row_among(&[&one, &two]), 4);
    assert_eq!(last_row_among(&[]), 0);
}

#[test]
fn formats_are_looked_up() {
    let a = tag("numFmt", &[("numFmtId", "170"), ("formatCode", "0.0")]);
    let b = tag("numFmt", &[("numFmtId", "165"), ("formatCode", "yyyy")]);
    let c = tag("numFmt", &[("numFmtId", "500")]);
    assert_eq!(scan_formats(&[&a, &b, &c], "yyyy").unwrap(), (Some(165), 170));
    assert_eq!(scan_formats(&[&a, &b, &c], "zz").unwrap(), (None, 170));
    assert_eq!(scan_formats(&[], "zz").unwrap(), (None, 163));
    let bad = tag("numFmt", &[("numFmtId", "x")]);
    assert!(matches!(scan_formats(&[&bad], "zz"), Err(XlsxError::Parse(_))));
}

#[test]
fn formats_are_added() {
    let mut styles = b"<s><numFmts count=\"1\"><numFmt/></numFmts></s>".to_vec();
    assert!(matches!(try_ensure_format(&mut styles, &[], "0%"), Some(Ok(164))));
    assert_eq!(styles, b"<s><numFmts count=\"2\"><numFmt/><numFmt numFmtId=\"164\" formatCode=\"0%\"/></numFmts></s>".to_vec());
    let mut fresh = b"<?xml version=\"1.0\"?><styleSheet a=\"1\"><x/></styleSheet>".to_vec();
    assert!(matches!(try_ensure_format(&mut fresh, &[], "0%"), Some(Ok(164))));
    assert_eq!(
        fresh,
        b"<?xml version=\"1.0\"?><styleSheet a=\"1\"><numFmts count=\"1\"><numFmt numFmtId=\"164\" formatCode=\"0%\"/></numFmts><x/></styleSheet>".to_vec()
    );
    let mut none = b"<?xml?>no tag".to_vec();
    assert!(matches!(
        try_ensure_format(&mut none, &[], "0%"),
        Some(Err(XlsxError::XmlTagNotFound { tag })) if tag == "<styleSheet>"
    ));
    let full = tag("numFmt", &[("numFmtId", "4294967295"), ("formatCode", "x")]);
    assert!(try_ensure_format(&mut styles, &[&full], "0%").is_none());
    assert!(matches!(try_ensure_format(&mut styles, &[&full], "x"), Some(Ok(4294967295))));
}

#[test]
fn styles_that_fit_are_found() {
    let a = tag("xf", &[("fontId", "1")]);
    let b = tag("xf", &[("numFmtId", "7"), ("fontId", "1"), ("fillId", "2")]);
    let c = tag("xf", &[("numFmtId", "7")]);
    let xfs = [&a, &b, &c];
    assert!(matches!(try_fitting_style(&xfs, 0, None, None), Some(Ok(Some(0)))));
    assert!(matches!(try_fitting_style(&xfs, 7, None, None), Some(Ok(Some(1)))));
    assert!(matches!(try_fitting_style(&xfs, 7, Some(1), Some(2)), Some(Ok(Some(1)))));
    assert!(matches!(try_fitting_style(&xfs, 7, Some(9), None), Some(Ok(None))));
    assert!(matches!(parts_of_style(&xfs, 1), Ok((Some(1), Some(2)))));
    assert!(matches!(parts_of_style(&xfs, 2), Ok((None, None))));
    assert!(matches!(parts_of_style(&xfs, 3), Ok((None, None))));
    let bad = tag("xf", &[("fillId", "")]);
    assert!(matches!(try_fitting_style(&[&bad], 0, None, None), Some(Err(XlsxError::Parse(_)))));
    assert!(matches!(parts_of_style(&[&bad], 0), Err(XlsxError::Parse(_))));
    assert!(matches!(
        xf_components(b"<cellXfs><xf fontId=\"4\"/></cellXfs>", 0),
        Ok((Some(4), None))
    ));
}

#[test]
fn styles_are_written() {
    assert_eq!(
        style_text(false, 0, None, None, None),
        "<xf numFmtId=\"0\" borderId=\"0\" xfId=\"0\"></xf>"
    );
    let align = AlignSpec {
        horiz: Some("center".to_string()),
        vert: Some("top".to_string()),
        wrap: true,
    };
    assert_eq!(
        style_text(true, 9, Some(1), Some(2), Some(&align)),
        "<xf fontId=\"1\" applyFont=\"1\" fillId=\"2\" applyFill=\"1\" numFmtId=\"9\" applyNumberFormat=\"1\" applyAlignment=\"1\" borderId=\"0\" xfId=\"0\"><alignment horizontal=\"center\" vertical=\"top\" wrapText=\"1\"/></xf>"
    );
    let bare = AlignSpec { horiz: None, vert: None, wrap: false };
    assert!(style_text(false, 0, None, None, Some(&bare.clone())).contains("<alignment/></xf>"));
}

#[test]
fn a_style_is_made_once() {
    let mut app = book("", PLAIN);
    assert_eq!(app.ensure_style(None, None, None, None).unwrap(), 0);
    assert_eq!(styles_of(&app), PLAIN);
    assert_eq!(app.ensure_style(Some("0.0"), Some(0), None, None).unwrap(), 1);
    let once = styles_of(&app).to_string();
    assert_eq!(app.ensure_style(Some("0.0"), Some(0), None, None).unwrap(), 1);
    assert_eq!(styles_of(&app), once);
    let align = AlignSpec { horiz: None, vert: None, wrap: true };
    assert_eq!(app.ensure_style(None, None, None, Some(&align)).unwrap(), 2);
    assert!(matches!(app.try_ensure_style(None, None, None, Some(&align)), Some(Ok(3))));
    assert!(styles_of(&app).contains("<cellXfs count=\"4\">"));
}

#[test]
fn styles_that_are_refused() {
    let mut app = book("", "<styleSheet/>");
    assert!(matches!(
        app.ensure_style(None, None, None, None),
        Err(XlsxError::XmlTagNotFound { tag }) if tag == "</cellXfs>"
    ));
    let mut app = book("", "<cellXfs><xf numFmtId=\"x\"/></cellXfs>");
    assert!(matches!(app.ensure_style(None, None, None, None), Err(XlsxError::Parse(_))));
    let mut app = book("", "<cellXfs></cellXfs>");
    assert!(matches!(
        app.ensure_style(None, None, None, None),
        Err(XlsxError::AttributeNotFound { .. })
    ));
    assert!(styles_of(&app).contains("<xf numFmtId=\"0\" borderId=\"0\" xfId=\"0\"></xf></cellXfs>"));
    let mut app = book("", "<cellXfs count=\"4294967295\"></cellXfs>");
    assert!(app.try_ensure_style(None, None, None, None).is_none());
    assert_eq!(styles_of(&app), "<cellXfs count=\"4294967295\"></cellXfs>");
}

#[test]
fn fonts_and_fills_are_numbered() {
    let mut styles = b"<fonts count=\"2\"></fonts>".to_vec();
    assert!(matches!(try_add_element(&mut styles, 2, "<font/>", "<fonts", "</fonts>"), Some(Ok(2))));
    assert_eq!(styles, b"<fonts count=\"3\"><font/></fonts>".to_vec());
    assert!(matches!(
        try_add_element(&mut styles, 0, "<fill/>", "<fills", "</fills>"),
        Some(Err(XlsxError::XmlTagNotFound { tag })) if tag == "</fills>"
    ));
    let mut app = book("<sheetData></sheetData>", "<fonts count=\"0\"/>");
    assert!(matches!(
        app.set_font("A1", "Arial", "10", false, false),
        Err(XlsxError::XmlTagNotFound { tag }) if tag == "</fonts>"
    ));
    assert!(matches!(
        app.try_set_fill("A1", "FF0000"),
        Some(Err(XlsxError::XmlTagNotFound { tag })) if tag == "</fills>"
    ));
}

#[test]
fn a_font_keeps_the_fill_and_a_fill_the_font() {
    let mut app = book("<sheetData></sheetData>", PLAIN);
    assert!(matches!(app.try_set_font("B2", "Arial", "10.5", true, true), Some(Ok(()))));
    assert!(sheet_of(&app).contains("<c r=\"B2\" t=\"inlineStr\" s=\"1\">"));
    assert!(styles_of(&app).contains("<font><b/><i/><sz val=\"10.5\"/><name val=\"Arial\"/></font></fonts>"));
    assert!(matches!(app.try_set_fill("B2", "00FF00"), Some(Ok(()))));
    assert!(sheet_of(&app).contains("<c r=\"B2\" t=\"inlineStr\" s=\"2\">"));
    assert!(styles_of(&app).contains("<xf fontId=\"1\" applyFont=\"1\" fillId=\"1\" applyFill=\"1\" numFmtId=\"0\" borderId=\"0\" xfId=\"0\"></xf></cellXfs>"));
}

#[test]
fn a_whole_column_gets_a_font_and_a_fill() {
    let mut app = book("<sheetData></sheetData>", PLAIN);
    app.set_fill("C:", "FF0000").unwrap();
    assert_eq!(
        sheet_of(&app),
        "<cols><col min=\"3\" max=\"3\" style=\"1\"/></cols><sheetData></sheetData>"
    );
    assert!(styles_of(&app).contains("<xf/><xf fillId=\"1\" applyFill=\"1\" numFmtId=\"0\" borderId=\"0\" xfId=\"0\"></xf></cellXfs>"));
    app.set_font("c:", "Arial", "9", false, false).unwrap();
    assert_eq!(
        sheet_of(&app),
        "<cols><col min=\"3\" max=\"3\" style=\"2\"/></cols><sheetData></sheetData>"
    );
    assert!(styles_of(&app).contains("<xf fontId=\"1\" applyFont=\"1\" fillId=\"1\" applyFill=\"1\" numFmtId=\"0\" borderId=\"0\" xfId=\"0\"></xf></cellXfs>"));
    assert!(matches!(
        app.set_fill("C", "FF0000"),
        Err(XlsxError::InvalidRange { range }) if range == "C"
    ));
    assert!(app.try_set_fill("A1:A99999999999", "FF0000").is_none());
    app.sheet.xml = b"<col min=\"1\" max=\"1\" style=\"\xff\"/>".to_vec();
    assert!(matches!(app.set_fill("A:", "FF0000"), Err(XlsxError::Utf8(_))));
    app.sheet.xml = b"<col min=\"1\" max=\"1\"".to_vec();
    assert!(matches!(app.set_fill("A:", "FF0000"), Err(XlsxError::MalformedXmlTag { .. })));
}

#[test]
fn a_whole_row_gets_a_fill_with_its_cells() {
    let mut app = book(
        "<sheetData><row r=\"6\"><c r=\"A6\"/></row><row r=\"7\" spans=\"1:2\"><c r=\"A7\"/><c s=\"0\" r=\"B7\"><v>1</v></c></row></sheetData>",
        PLAIN,
    );
    app.set_fill("7:", "FF0000").unwrap();
    assert_eq!(
        sheet_of(&app),
        "<sheetData><row r=\"6\"><c r=\"A6\"/></row><row r=\"7\" spans=\"1:2\" s=\"1\" customFormat=\"1\"><c r=\"A7\" s=\"1\"/><c s=\"1\" r=\"B7\"><v>1</v></c></row></sheetData>"
    );
}

#[test]
fn a_whole_row_keeps_what_its_cells_have() {
    let mut app = book(
        "<sheetData><row r=\"7\"><c r=\"A7\"><v>1</v></c><c r=\"B7\"><v>2</v></c></row></sheetData>",
        PLAIN,
    );
    app.set_fill("B7", "00FF00").unwrap();
    app.set_font("7:", "Arial", "9", false, false).unwrap();
    assert_eq!(
        sheet_of(&app),
        "<sheetData><row r=\"7\" s=\"2\" customFormat=\"1\"><c r=\"A7\" s=\"2\"><v>1</v></c><c r=\"B7\" s=\"3\"><v>2</v></c></row></sheetData>"
    );
    app.set_font("7:", "Calibri", "9", false, false).unwrap();
    assert_eq!(
        sheet_of(&app),
        "<sheetData><row r=\"7\" s=\"4\" customFormat=\"1\"><c r=\"A7\" s=\"4\"><v>1</v></c><c r=\"B7\" s=\"5\"><v>2</v></c></row></sheetData>"
    );
    assert!(styles_of(&app).contains("<xf fontId=\"2\" applyFont=\"1\" fillId=\"1\" applyFill=\"1\" numFmtId=\"0\" borderId=\"0\" xfId=\"0\"></xf></cellXfs>"));
}

#[test]
fn a_row_that_is_not_there_is_made() {
    let mut app = book("<sheetData></sheetData>", PLAIN);
    app.set_font("7:", "Arial", "9", false, false).unwrap();
    assert_eq!(
        sheet_of(&app),
        "<sheetData><row r=\"7\" s=\"1\" customFormat=\"1\"></row></sheetData>"
    );
    assert!(matches!(app.set_fill("99999999999:", "FF0000"), Err(XlsxError::Parse(_))));
    let mut app = book("<row r=\"7\"", PLAIN);
    assert!(matches!(
        app.set_fill("7:", "FF0000"),
        Err(XlsxError::MalformedXmlTag { tag }) if tag == "<row>"
    ));
    let mut app = book("<row r=\"7\" s=\"5></row>", PLAIN);
    assert!(app.try_set_fill("7:", "FF0000").is_none());
}

#[test]
fn a_new_row_goes_to_its_place() {
    let mut app = book("<sheetData><row r=\"3\"></row><row r=\"9\"></row></sheetData>", PLAIN);
    app.set_fill("7:", "FF0000").unwrap();
    assert_eq!(
        sheet_of(&app),
        "<sheetData><row r=\"3\"></row><row r=\"7\" s=\"1\" customFormat=\"1\"></row><row r=\"9\"></row></sheetData>"
    );
}

#[test]
fn a_refused_cell_does_not_stand_in_the_way() {
    let mut app = book("", PLAIN);
    assert!(matches!(
        app.set_number_format("B9", "0"),
        Err(XlsxError::XmlTagNotFound { tag }) if tag == "</sheetData>"
    ));
    app.sheet.xml = b"<sheetData></sheetData>".to_vec();
    app.set_number_format("B9", "0").unwrap();
    assert_eq!(
        sheet_of(&app),
        "<sheetData><row r=\"9\"><c r=\"B9\" t=\"inlineStr\" s=\"1\"><is><t></t></is></c></row></sheetData>"
    );
    assert_eq!(app.sheet.last_row, 9);
}

#[test]
fn cells_keep_their_shape_when_they_get_a_style() {
    let mut app = book("<sheetData><row r=\"1\"/><row ht=\"9\" r=\"2\"><c r=\"A2\"/><c s=\"7\" r=\"B2\"/></row></sheetData>", PLAIN);
    app.set_number_format("A1:B2", "0").unwrap();
    assert_eq!(
        sheet_of(&app),
        "<sheetData><row r=\"1\"><c r=\"A1\" s=\"1\"/><c r=\"B1\" s=\"1\"/></row><row ht=\"9\" r=\"2\"><c r=\"A2\" s=\"1\"/><c s=\"1\" r=\"B2\"/></row></sheetData>"
    );
}

#[test]
fn fonts_are_numbered_in_their_list() {
    let styles = "<styleSheet><fonts count=\"1\"><font/></fonts><fills count=\"1\"><fill/></fills><cellXfs count=\"1\"><xf/></cellXfs><dxfs count=\"1\"><dxf><font><b/></font><fill/></dxf></dxfs></styleSheet>";
    let mut app = book("<sheetData></sheetData>", styles);
    app.set_font("A1", "Arial", "12", true, false).unwrap();
    app.set_fill("A1", "FF0000").unwrap();
    assert!(styles_of(&app).contains("<fonts count=\"2\"><font/><font><b/><sz val=\"12\"/><name val=\"Arial\"/></font></fonts>"));
    assert!(styles_of(&app).contains("<xf fontId=\"1\" applyFont=\"1\" fillId=\"1\" applyFill=\"1\" numFmtId=\"0\" borderId=\"0\" xfId=\"0\"></xf></cellXfs>"));
}

#[test]
fn a_style_is_read_back_from_its_tag() {
    for text in ["<c r=\"A1\">", "<c r=\"A1\"/>", "<c s=\"31\" r=\"A1\"/>", "<c r=\"A1\" s=\"\">"] {
        let mut tag = text.as_bytes().to_vec();
        try_insert_or_replace_attr(&mut tag, " s=\"", "15").unwrap();
        assert!(matches!(find_style(&tag, " s=\""), Ok(Some(15))));
        assert_eq!(find_tag_of(&tag, "<c ", "A1", 0), Some(0));
        let mut again = tag.clone();
        try_insert_or_replace_attr(&mut again, " s=\"", "15").unwrap();
        assert_eq!(tag, again);
    }
}

#[test]
fn styles_that_are_there_keep_their_numbers() {
    let list = |editor: &XlsxEditor| -> String {
        let text = styles_of(editor);
        let start = text.find("<cellXfs").unwrap();
        let from = start + text[start..].find('>').unwrap() + 1;
        text[from..text.find("</cellXfs>").unwrap()].to_owned()
    };
    let mut app = book("<sheetData></sheetData>", PLAIN);
    app.set_fill("A1", "FF0000").unwrap();
    let before = list(&app);
    app.set_font("B1", "Arial", "9", false, false).unwrap();
    assert!(list(&app).starts_with(&before));
    assert!(list(&app).len() > before.len());
    assert!(sheet_of(&app).contains("<c r=\"A1\" t=\"inlineStr\" s=\"1\">"));
    assert!(sheet_of(&app).contains("<c r=\"B1\" s=\"2\"/>"));
    app.set_number_format("C1", "0.0").unwrap();
    let longer = list(&app);
    app.set_number_format("D1", "0.0").unwrap();
    assert_eq!(list(&app), longer);
}

#[test]
fn a_column_with_an_end_tag_is_styled_alone() {
    let mut app = book("<cols><col min=\"1\" max=\"1\"></col><col min=\"2\" max=\"2\" style=\"9\"/></cols><sheetData></sheetData>", PLAIN);
    app.set_column_number_format("A", "0.0").unwrap();
    assert_eq!(
        sheet_of(&app),
        "<cols><col min=\"1\" max=\"1\" style=\"1\"></col><col min=\"2\" max=\"2\" style=\"9\"/></cols><sheetData></sheetData>"
    );
}

#[test]
fn a_row_that_is_not_text_is_refused() {
    let mut app = book("", PLAIN);
    app.sheet.xml = b"\xff<sheetData></sheetData>".to_vec();
    assert!(matches!(app.set_fill("7:", "FF0000"), Err(XlsxError::Utf8(_))));
    let mut app = book("<sheetData>", PLAIN);
    assert!(matches!(
        app.set_fill("7:", "FF0000"),
        Err(XlsxError::XmlTagNotFound { tag }) if tag == "</sheetData>"
    ));
}

#[test]
fn columns_get_a_format() {
    let mut app = book("<sheetData></sheetData>", PLAIN);
    app.set_column_number_format("B", "0.0").unwrap();
    assert_eq!(sheet_of(&app), "<cols><col min=\"2\" max=\"2\" style=\"1\"/></cols><sheetData></sheetData>");
    app.set_column_number_format("b", "0.00").unwrap();
    assert_eq!(sheet_of(&app), "<cols><col min=\"2\" max=\"2\" style=\"2\"/></cols><sheetData></sheetData>");
    app.sheet.xml = b"<col min=\"1\" max=\"1\" w=\"5\"/><sheetData>".to_vec();
    assert!(matches!(app.try_set_column_number_format("A", "0.0"), Some(Ok(()))));
    assert_eq!(sheet_of(&app), "<col min=\"1\" max=\"1\" w=\"5\" style=\"1\"/><sheetData>");
    app.sheet.xml = b"<col min=\"1\" max=\"1\">x".to_vec();
    app.set_column_number_format("A", "0.0").unwrap();
    assert_eq!(sheet_of(&app), "<col min=\"1\" max=\"1\" style=\"1\">x");
    app.sheet.xml = b"<col min=\"1\" max=\"1\"".to_vec();
    assert!(matches!(
        app.set_column_number_format("A", "0.0"),
        Err(XlsxError::MalformedXmlTag { tag }) if tag == "<col>"
    ));
    app.sheet.xml = b"<worksheet/>".to_vec();
    assert!(matches!(
        app.set_column_number_format("A", "0.0"),
        Err(XlsxError::XmlTagNotFound { tag }) if tag == "<sheetData>"
    ));
    assert!(app.try_set_column_number_format("", "0.0").is_none());
}

#[test]
fn a_format_is_forced_on_the_cells_of_a_column() {
    let mut app = book("<sheetData><c r=\"A1\"/><c s=\"9\" r=\"A12\"><c r=\"BA1\"><c t=\"x\" r=\"A2\"></sheetData>", PLAIN);
    app.force_column_number_format("a", "0.0").unwrap();
    assert_eq!(
        sheet_of(&app),
        "<cols><col min=\"1\" max=\"1\" style=\"1\"/></cols><sheetData><c r=\"A1\" s=\"1\"/><c s=\"1\" r=\"A12\"><c r=\"BA1\"><c t=\"x\" r=\"A2\" s=\"1\"></sheetData>"
    );
    assert!(matches!(app.try_force_column_number_format("[", "0.0"), Some(Err(XlsxError::Regex(_)))));
    app.sheet.xml = b"<sheetData>\xff".to_vec();
    assert!(matches!(app.force_column_number_format("A", "0.0"), Err(XlsxError::Utf8(_))));
    assert!(app.sheet.xml.is_empty());
    assert!(matches!(
        app.try_set_number_format("A:", "0.0"),
        Some(Err(XlsxError::XmlTagNotFound { .. }))
    ));
    assert!(app.try_set_number_format("3:", "0.0").is_none());
}

#[test]
fn forcing_a_format_again_changes_nothing() {
    let mut app = book("<sheetData><row r=\"1\"><c r=\"A1\"/><c r=\"B1\"/></row><row r=\"2\"><c s=\"4\" r=\"A2\"><v>1</v></c></row></sheetData>", PLAIN);
    app.force_column_number_format("A", "0.0").unwrap();
    let once = (sheet_of(&app).to_owned(), styles_of(&app).to_owned());
    app.force_column_number_format("A", "0.0").unwrap();
    assert_eq!((sheet_of(&app).to_owned(), styles_of(&app).to_owned()), once);
    assert!(once.0.contains("<c r=\"A1\" s=\"1\"/><c r=\"B1\"/>"));
    assert!(once.0.contains("<c s=\"1\" r=\"A2\">"));
}

#[test]
fn a_cell_whose_tag_has_no_end() {
    let mut app = book("<row r=\"1\"><c r=\"A1\"", PLAIN);
    assert!(matches!(
        app.set_number_format("A1", "0"),
        Err(XlsxError::XmlTagNotFound { tag }) if tag == "</row>"
    ));
    let mut app = book("</row><row r=\"1\"></row <c r=\"A1\"", PLAIN);
    assert!(matches!(app.set_number_format("A1", "0"), Err(XlsxError::XmlTagNotFound { .. })));
    let mut app = book("<row r=\"1\"><c r=\"A1\" s=\"1></row>", PLAIN);
    assert!(app.try_set_number_format("A1", "0").is_none());
    let mut app = book("<sheetData></sheetData>", PLAIN);
    app.set_number_format("A01", "0").unwrap();
    assert_eq!(
        sheet_of(&app),
        "<sheetData><row r=\"1\"><c r=\"A01\" t=\"inlineStr\" s=\"1\"><is><t></t></is></c></row></sheetData>"
    );
}

#[test]
fn a_style_that_is_not_text_is_refused() {
    let mut app = book("", PLAIN);
    app.sheet.xml = b"<row r=\"1\"><c r=\"A1\" s=\"\xff\"/></row>".to_vec();
    assert!(matches!(app.set_fill("A1", "FF0000"), Err(XlsxError::Utf8(_))));
    app.sheet.xml = b"<row r=\"1\"><c r=\"A1\" s=\"zz\"/></row>".to_vec();
    app.set_fill("A1", "FF0000").unwrap();
    assert_eq!(sheet_of(&app), "<row r=\"1\"><c r=\"A1\" s=\"1\"/></row>");
}

#[test]
fn attributes_are_set() {
    let mut xml = b"<row ht=\"3\">".to_vec();
    assert!(try_insert_or_replace_attr(&mut xml, " ht=\"", "15").is_some());
    assert_eq!(xml, b"<row ht=\"15\">");
    assert!(try_insert_or_replace_attr(&mut xml, " x=\"", "1").is_some());
    assert_eq!(xml, b"<row ht=\"15\" x=\"1\">");
    assert!(matches!(find_style(&xml, " ht=\""), Ok(Some(15))));
    assert!(matches!(find_style(&xml, " s=\""), Ok(None)));
    assert!(matches!(find_style(b"<a s=\"x\">", " s=\""), Ok(Some(0))));
    assert!(matches!(find_style(b"<a s=\"\xff\">", " s=\""), Err(XlsxError::Utf8(_))));
    assert!(matches!(find_style(b"<a s=\"1>", " s=\""), Ok(None)));
    assert!(try_insert_or_replace_attr(&mut Vec::new(), " x=\"", "1").is_none());
    assert!(try_insert_or_replace_attr(&mut b" x=\"".to_vec(), " x=\"", "1").is_none());
    let mut empty = b"<c s=\"\" t=\"n\"/>".to_vec();
    assert!(try_insert_or_replace_attr(&mut empty, " s=\"", "3").is_some());
    assert_eq!(empty, b"<c s=\"3\" t=\"n\"/>");
    let rows = b"<row ht=\"1\" r=\"12\"/><row r=\"1\">";
    assert_eq!(find_tag_of(rows, "<row ", "1", 0), Some(20));
    assert_eq!(find_tag_of(rows, "<row ", "12", 0), Some(0));
    assert_eq!(find_tag_of(rows, "<row ", "2", 0), None);
}

#[test]
fn tags_at_matches_get_a_style() {
    let xml = b"a<c/>b<c s=\"1\">";
    let found = vec![
        Match { start: 1, text: "<c/>".to_string() },
        Match { start: 6, text: "<c s=\"1\">".to_string() },
    ];
    assert_eq!(try_paint_tags(xml, &found, "7").unwrap(), b"a<c s=\"7\"/>b<c s=\"7\">");
    assert!(try_paint_tags(xml, &[Match { start: 99, text: String::new() }], "7").is_none());
    assert_eq!(try_paint_tags(xml, &[], "7").unwrap(), xml.to_vec());
}

#[test]
fn references_outside_a_cell_are_passed_over() {
    let xml = b"<q r=\"A1\"/><c r=\"B1\"/><c t=\"n\" r=\"C1\"/>";
    let found = vec![
        Match { start: 2, text: " r=\"A1\"".to_string() },
        Match { start: 13, text: " r=\"B1\"".to_string() },
        Match { start: 30, text: " r=\"C1\"".to_string() },
        Match { start: 30, text: " r=A".to_string() },
        Match { start: 999, text: " r=\"D1\"".to_string() },
    ];
    assert_eq!(cells_named(xml, &found), vec!["B1", "C1"]);
}

#[test]
fn a_rectangle_gets_a_font_and_then_a_fill() {
    let sheet = "<sheetData><row r=\"1\"><c r=\"A1\"><v>1</v></c><c r=\"B1\" t=\"inlineStr\"><is><t>x</t></is></c><c r=\"D1\"><v>4</v></c></row><row r=\"2\"><c r=\"C2\" s=\"0\"><f>A1</f></c></row></sheetData>";
    let mut app = book(sheet, PLAIN);
    app.set_font("A1:C3", "Calibri", "10", false, true).unwrap();
    app.set_fill("A1:C3", "FFFF00").unwrap();
    assert!(styles_of(&app).contains("<fonts count=\"2\">"));
    assert!(styles_of(&app).contains("<fills count=\"2\">"));
    for name in ["A1", "B1", "C1", "A2", "B2", "C2", "A3", "B3", "C3"] {
        let at = find_tag_of(&app.sheet.xml, "<c ", name, 0).unwrap();
        let text = &sheet_of(&app)[at..];
        let tag = &text[..text.find('>').unwrap() + 1];
        let id = find_style(tag.as_bytes(), " s=\"").unwrap().unwrap();
        assert_eq!(xf_components(&app.styles_xml, id).unwrap(), (Some(1), Some(1)), "{}", name);
    }
    assert!(sheet_of(&app).contains("<c r=\"A1\" s=\"2\"><v>1</v></c>"));
    assert!(sheet_of(&app).contains("<c r=\"B1\" t=\"inlineStr\" s=\"2\"><is><t>x</t></is></c>"));
    assert!(sheet_of(&app).contains("<c r=\"C2\" s=\"2\"><f>A1</f></c>"));
    assert!(sheet_of(&app).contains("<c r=\"D1\"><v>4</v></c>"));
}

#[test]
fn a_style_that_is_added_keeps_the_other_bytes() {
    let styles = "<styleSheet><cellXfs a=\"b\" count=\"9\"><xf fontId=\"2\"/></cellXfs><dxfs count=\"5\"/></styleSheet>";
    let mut app = book("", styles);
    assert_eq!(app.ensure_style(None, Some(7), Some(8), None).unwrap(), 1);
    let made = "<styleSheet><cellXfs a=\"b\" count=\"10\"><xf fontId=\"2\"/><xf fontId=\"7\" applyFont=\"1\" fillId=\"8\" applyFill=\"1\" numFmtId=\"0\" borderId=\"0\" xfId=\"0\"></xf></cellXfs><dxfs count=\"5\"/></styleSheet>";
    assert_eq!(styles_of(&app), made);
    assert_eq!(app.ensure_style(None, Some(7), Some(8), None).unwrap(), 1);
    assert_eq!(styles_of(&app), made);
    assert_eq!(xf_components(&app.styles_xml, 0).unwrap(), (Some(2), None));
    assert_eq!(xf_components(&app.styles_xml, 1).unwrap(), (Some(7), Some(8)));
    assert_eq!(xf_components(&app.styles_xml, 2).unwrap(), (None, None));
    assert_eq!(app.ensure_style(None, Some(2), None, None).unwrap(), 0);
}
