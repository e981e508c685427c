use wolfxl::error::PatchError;
use wolfxl::part::{parse, serialize};
use wolfxl::plan::Content;
use wolfxl::sheet::{make_formula_delta, make_style_delta, make_value_delta, set_cell};

const SHEET: &str = "<?xml version=\"1.0\" encoding=\"UTF-8\" standalone=\"yes\"?>\n\
<worksheet xmlns=\"http://schemas.openxmlformats.org/spreadsheetml/2006/main\" xmlns:x14ac=\"urn:x\">\
<dimension ref=\"A1:B1\"/><sheetData>\
<row r=\"1\" spans=\"1:2\" x14ac:dyDescent=\"0.25\"><c r=\"A1\" t=\"s\"><v>0</v></c><c r=\"B1\"><v>42</v></c></row>\
<vendor:thing xmlns:vendor=\"urn:vendor\" weird='yes > no'><!-- kept --><vendor:inner/></vendor:thing>\
<row r=\"3\"><c r=\"C3\" s=\"2\"/></row>\
</sheetData><pageMargins left=\"0.7\"/><extLst><ext uri=\"{x}\"><![CDATA[ <raw> ]]></ext></extLst></worksheet>";

fn patch(src: &str, row: u32, col: u32, delta: &wolfxl::sheet::CellDelta) -> Result<String, PatchError> {
    let part = parse(b"xl/worksheets/sheet1.xml", src.as_bytes())?;
    set_cell(&part, row, col, delta).map(|b| String::from_utf8(b).unwrap())
}

#[test]
fn a_part_serializes_to_the_bytes_it_was_read_from() {
    let part = parse(b"xl/worksheets/sheet1.xml", SHEET.as_bytes()).unwrap();
    assert_eq!(serialize(&part), SHEET.as_bytes());
    assert_eq!(part.name, b"xl/worksheets/sheet1.xml");
    for odd in ["", "plain text", "<a/>", "<a b='1'>x<!-- c --><b/>y</a>\n", "<a><![CDATA[<]]></a>"] {
        let part = parse(b"p", odd.as_bytes()).unwrap();
        assert_eq!(serialize(&part), odd.as_bytes());
    }
}

#[test]
fn malformed_xml_is_refused() {
    for bad in ["<a>", "<a></b>", "</a>", "<a", "<a><b></a></b>", "<a b=\"1></a>", "<!-- open", "<>", "< a/>", "<a></a ", "<a><?pi </a>"] {
        assert_eq!(parse(b"p", bad.as_bytes()).err(), Some(PatchError::MalformedXml), "{}", bad);
    }
    assert_eq!(parse(b"p", &[b'<', b'a', b'>', 0xff, b'<', b'/', b'a', b'>']).err(), Some(PatchError::MalformedXml));
}

#[test]
fn unknown_content_is_tolerated() {
    for ok in ["<a xmlns:q=\"urn:q\" q:z=\"1\"><q:b/></a>", "<a b='>'/>", "<a><!-- <b> --></a>", "<?xml version=\"1.0\"?><a/>", "<a\n  b = \"1\"\n/>"] {
        assert!(parse(b"p", ok.as_bytes()).is_ok(), "{}", ok);
    }
}

#[test]
fn setting_a_value_changes_only_the_cell() {
    let out = patch(SHEET, 1, 1, &make_value_delta(&Content::SharedString(1))).unwrap();
    let expected = SHEET.replace("<c r=\"A1\" t=\"s\"><v>0</v></c>", "<c r=\"A1\" t=\"s\"><v>1</v></c>");
    assert_eq!(out, expected);
}

#[test]
fn setting_a_number_on_a_string_cell_changes_its_type() {
    let out = patch(SHEET, 1, 1, &make_value_delta(&Content::Number(b"3.5".to_vec()))).unwrap();
    let expected = SHEET.replace("<c r=\"A1\" t=\"s\"><v>0</v></c>", "<c r=\"A1\" t=\"n\"><v>3.5</v></c>");
    assert_eq!(out, expected);
}

#[test]
fn a_new_attribute_goes_behind_the_existing_ones() {
    let out = patch(SHEET, 1, 2, &make_value_delta(&Content::Bool(true))).unwrap();
    let expected = SHEET.replace("<c r=\"B1\"><v>42</v></c>", "<c r=\"B1\" t=\"b\"><v>1</v></c>");
    assert_eq!(out, expected);
    let out = patch(SHEET, 1, 2, &make_style_delta(7)).unwrap();
    let expected = SHEET.replace("<c r=\"B1\"><v>42</v></c>", "<c r=\"B1\" s=\"7\"><v>42</v></c>");
    assert_eq!(out, expected);
}

#[test]
fn an_empty_cell_is_opened_for_a_value() {
    let out = patch(SHEET, 3, 3, &make_value_delta(&Content::Number(b"-1".to_vec()))).unwrap();
    let expected = SHEET.replace("<c r=\"C3\" s=\"2\"/>", "<c r=\"C3\" s=\"2\" t=\"n\"><v>-1</v></c>");
    assert_eq!(out, expected);
    let out = patch(SHEET, 3, 3, &make_style_delta(4)).unwrap();
    let expected = SHEET.replace("<c r=\"C3\" s=\"2\"/>", "<c r=\"C3\" s=\"4\"/>");
    assert_eq!(out, expected);
}

#[test]
fn a_new_cell_goes_before_the_first_later_column() {
    let out = patch(SHEET, 3, 2, &make_value_delta(&Content::SharedString(5))).unwrap();
    let expected = SHEET.replace("<c r=\"C3\" s=\"2\"/>", "<c r=\"B3\" t=\"s\"><v>5</v></c><c r=\"C3\" s=\"2\"/>");
    assert_eq!(out, expected);
    let out = patch(SHEET, 3, 4, &make_style_delta(1)).unwrap();
    let expected = SHEET.replace("<c r=\"C3\" s=\"2\"/>", "<c r=\"C3\" s=\"2\"/><c r=\"D3\" s=\"1\"/>");
    assert_eq!(out, expected);
}

#[test]
fn a_new_row_goes_before_the_first_later_row() {
    let out = patch(SHEET, 2, 1, &make_value_delta(&Content::Number(b"9".to_vec()))).unwrap();
    let expected = SHEET.replace("<row r=\"3\">", "<row r=\"2\"><c r=\"A2\" t=\"n\"><v>9</v></c></row><row r=\"3\">");
    assert_eq!(out, expected);
    let out = patch(SHEET, 10, 27, &make_value_delta(&Content::Number(b"9".to_vec()))).unwrap();
    let expected = SHEET.replace("</sheetData>", "<row r=\"10\"><c r=\"AA10\" t=\"n\"><v>9</v></c></row></sheetData>");
    assert_eq!(out, expected);
}

#[test]
fn empty_sheet_data_and_empty_rows_are_opened() {
    let blank = "<worksheet><sheetData/></worksheet>";
    let out = patch(blank, 1, 1, &make_style_delta(3)).unwrap();
    assert_eq!(out, "<worksheet><sheetData><row r=\"1\"><c r=\"A1\" s=\"3\"/></row></sheetData></worksheet>");
    let bare = "<worksheet><sheetData><row r=\"4\" ht=\"20\"/></sheetData></worksheet>";
    let out = patch(bare, 4, 2, &make_formula_delta(b"A1<B1")).unwrap();
    assert_eq!(out, "<worksheet><sheetData><row r=\"4\" ht=\"20\"><c r=\"B4\"><f>A1&lt;B1</f></c></row></sheetData></worksheet>");
}

#[test]
fn a_formula_goes_first_and_keeps_the_value() {
    let out = patch(SHEET, 1, 2, &make_formula_delta(b"SUM(A1:A3)&\"x\"")).unwrap();
    let expected = SHEET.replace("<c r=\"B1\"><v>42</v></c>", "<c r=\"B1\"><f>SUM(A1:A3)&amp;&quot;x&quot;</f><v>42</v></c>");
    assert_eq!(out, expected);
    let with_f = "<worksheet><sheetData><row r=\"1\"><c r=\"A1\"><f>B1</f><v>1</v><extLst/></c></row></sheetData></worksheet>";
    let out = patch(with_f, 1, 1, &make_formula_delta(b"C1")).unwrap();
    assert_eq!(out, with_f.replace("<f>B1</f>", "<f>C1</f>"));
    let out = patch(with_f, 1, 1, &make_value_delta(&Content::Number(b"2".to_vec()))).unwrap();
    assert_eq!(out, "<worksheet><sheetData><row r=\"1\"><c r=\"A1\" t=\"n\"><f>B1</f><extLst/><v>2</v></c></row></sheetData></worksheet>");
}

#[test]
fn inline_text_takes_the_place_of_a_value_and_the_other_way_round() {
    let out = patch(SHEET, 1, 2, &make_value_delta(&Content::Inline(b"in <place>".to_vec()))).unwrap();
    let expected = SHEET.replace("<c r=\"B1\"><v>42</v></c>", "<c r=\"B1\" t=\"inlineStr\"><is><t>in &lt;place&gt;</t></is></c>");
    assert_eq!(out, expected);
    let back = patch(&out, 1, 2, &make_value_delta(&Content::Number(b"42".to_vec()))).unwrap();
    assert_eq!(back, SHEET.replace("<c r=\"B1\"><v>42</v></c>", "<c r=\"B1\" t=\"n\"><v>42</v></c>"));
}

#[test]
fn a_shared_formula_is_refused() {
    let shared = "<worksheet><sheetData><row r=\"1\"><c r=\"A1\"><f t=\"shared\" ref=\"A1:A3\" si=\"0\">B1</f><v>1</v></c></row></sheetData></worksheet>";
    assert_eq!(patch(shared, 1, 1, &make_formula_delta(b"C1")), Err(PatchError::UnsupportedFeature));
    assert!(patch(shared, 1, 1, &make_style_delta(1)).is_ok());
}

#[test]
fn what_the_engine_does_not_know_is_left_alone_or_refused() {
    let prefixed = "<x:worksheet xmlns:x=\"urn:x\"><x:sheetData><x:row r=\"1\"/></x:sheetData></x:worksheet>";
    assert_eq!(patch(prefixed, 1, 1, &make_style_delta(1)), Err(PatchError::UnsupportedFeature));
    let marked = "\u{feff}<?xml version=\"1.0\"?>\r\n<worksheet>\r\n  <sheetData>\r\n    <row r=\"1\">\r\n      <c r=\"A1\"/>\r\n    </row>\r\n  </sheetData>\r\n</worksheet>\r\n";
    let out = patch(marked, 1, 1, &make_style_delta(2)).unwrap();
    assert_eq!(out, marked.replace("<c r=\"A1\"/>", "<c r=\"A1\" s=\"2\"/>"));
    let out = patch(marked, 1, 2, &make_style_delta(2)).unwrap();
    assert_eq!(out, marked.replace("\r\n    </row>", "\r\n    <c r=\"B1\" s=\"2\"/></row>"));
    let deep = "<worksheet><sheetData><group><row r=\"1\"><c r=\"A1\"/></row></group><row r=\"2\"><wrap><c r=\"A2\"/></wrap></row></sheetData></worksheet>";
    let out = patch(deep, 1, 1, &make_style_delta(1)).unwrap();
    assert_eq!(out, deep.replace("<row r=\"2\">", "<row r=\"1\"><c r=\"A1\" s=\"1\"/></row><row r=\"2\">"));
    let out = patch(deep, 2, 1, &make_style_delta(1)).unwrap();
    assert_eq!(out, deep.replace("</wrap></row>", "</wrap><c r=\"A2\" s=\"1\"/></row>"));
}

#[test]
fn a_part_that_cannot_be_read_is_refused() {
    assert_eq!(patch("<worksheet/>", 1, 1, &make_style_delta(1)), Err(PatchError::UnsupportedFeature));
    let no_r = "<worksheet><sheetData><row><c><v>1</v></c></row></sheetData></worksheet>";
    assert_eq!(patch(no_r, 1, 1, &make_style_delta(1)), Err(PatchError::UnsupportedFeature));
}

#[test]
fn an_unrecognized_element_survives_an_edit_byte_for_byte() {
    let synthetic = "<vendor:thing xmlns:vendor=\"urn:vendor\" weird='yes > no'><!-- kept --><vendor:inner/></vendor:thing>";
    assert!(SHEET.contains(synthetic));
    for (row, col) in [(1u32, 1u32), (1, 2), (2, 5), (3, 3), (9, 9)] {
        let out = patch(SHEET, row, col, &make_value_delta(&Content::Number(b"1".to_vec()))).unwrap();
        assert!(out.contains(synthetic));
        assert!(out.contains("<extLst><ext uri=\"{x}\"><![CDATA[ <raw> ]]></ext></extLst>"));
        assert!(out.starts_with("<?xml version=\"1.0\" encoding=\"UTF-8\" standalone=\"yes\"?>\n<worksheet xmlns="));
        assert!(parse(b"p", out.as_bytes()).is_ok());
    }
}
