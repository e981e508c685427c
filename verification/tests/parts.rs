use wolfxl::archive::read_directory;
use wolfxl::attrs::{find_attr, open_up, push_escaped, read_attr, set_attr};
use wolfxl::cellref::SheetFormat;
use wolfxl::error::PatchError;
use wolfxl::lists::{append_entry, read_list};
use wolfxl::part::{parse, serialize, Part};
use wolfxl::plan::Section;
use wolfxl::shift::{contains_element, move_cell, move_row, shift_lines};
use wolfxl::edit::Shift;
use wolfxl::styles::StyleTable;
use wolfxl::style::{Alignment, Border, BorderStyle, CellFormat, Fill, Font, HorizontalAlignment};
use wolfxl::tree::{close_index, element_end_at, find_element, node_is};
use wolfxl::workbook::{find_target, path_of, read_sheets, rename_sheet};
use wolfxl::xml::{next_token, NodeKind};

fn part(src: &str) -> Part {
    parse(b"p.xml", src.as_bytes()).unwrap()
}

fn s(v: Vec<u8>) -> String {
    String::from_utf8(v).unwrap()
}

#[test]
fn tokens_lie_end_to_end() {
    let src = b"<?xml v?><a b='>' c=\"/\">t<!-- <x> --><b/><![CDATA[<]]></a >\n";
    let mut at = 0;
    let mut kinds = Vec::new();
    while at < src.len() {
        let (kind, end, name_end) = next_token(src, at).unwrap();
        assert!(at < end && at <= name_end && name_end <= end);
        kinds.push(kind);
        at = end;
    }
    assert_eq!(
        kinds,
        vec![
            NodeKind::Other,
            NodeKind::Open,
            NodeKind::Text,
            NodeKind::Other,
            NodeKind::Empty,
            NodeKind::Other,
            NodeKind::Close,
            NodeKind::Text
        ]
    );
    assert_eq!(next_token(b"<a", 0), None);
    assert_eq!(next_token(b"</ a>", 0), None);
    assert_eq!(next_token(b"<!-- never closed ->", 0), None);
    assert_eq!(next_token(b"<a b=\"1>", 0), None);
    assert_eq!(next_token(b"<a <b>", 0), None);
}

#[test]
fn nodes_record_kind_range_and_depth() {
    let p = part("<a><b x=\"1\"><c/>t</b></a>");
    let seen: Vec<(NodeKind, usize, usize, usize)> = p.nodes.iter().map(|n| (n.kind, n.start, n.end, n.depth)).collect();
    assert_eq!(
        seen,
        vec![
            (NodeKind::Open, 0, 3, 0),
            (NodeKind::Open, 3, 12, 1),
            (NodeKind::Empty, 12, 16, 2),
            (NodeKind::Text, 16, 17, 2),
            (NodeKind::Close, 17, 21, 1),
            (NodeKind::Close, 21, 25, 0)
        ]
    );
    assert_eq!(p.nodes[1].name_end, 5);
    assert_eq!(close_index(&p, 0), 5);
    assert_eq!(close_index(&p, 1), 4);
    assert_eq!(close_index(&p, 2), 3);
    assert_eq!(element_end_at(&p, 1), 21);
    assert_eq!(element_end_at(&p, 2), 16);
    assert_eq!(element_end_at(&p, 0), 25);
    assert!(node_is(&p, 1, 1, b"b"));
    assert!(!node_is(&p, 1, 2, b"b"));
    assert!(!node_is(&p, 1, 1, b"c"));
    assert!(!node_is(&p, 4, 1, b"b"));
    assert_eq!(find_element(&p, 0, 6, 2, "c"), 2);
    assert_eq!(find_element(&p, 0, 6, 1, "c"), 6);
    assert_eq!(find_element(&p, 3, 6, 2, "c"), 6);
}

#[test]
fn a_part_changed_by_hand_is_not_intact() {
    let mut p = part("<a><b/></a>");
    assert!(p.intact());
    assert_eq!(serialize(&p), b"<a><b/></a>");
    p.nodes[1].end += 1;
    assert!(!p.intact());
    let mut q = part("<a><b/></a>");
    q.src[1] = b'<';
    assert!(!q.intact());
    let mut r = part("<a><b/></a>");
    r.nodes.pop();
    assert!(!r.intact());
}

#[test]
fn attributes_are_found_as_they_are_written() {
    let src = b"<c r = 'A1'  t=\"s\" odd:x=\"a>b\" empty=\"\"/>";
    let p = parse(b"p", src).unwrap();
    let tag = p.nodes[0];
    assert_eq!(find_attr(src, tag, b"r"), Some((8, 10)));
    assert_eq!(read_attr(src, tag, "r"), Some(b"A1".to_vec()));
    assert_eq!(read_attr(src, tag, "t"), Some(b"s".to_vec()));
    assert_eq!(read_attr(src, tag, "odd:x"), Some(b"a>b".to_vec()));
    assert_eq!(read_attr(src, tag, "empty"), Some(Vec::new()));
    assert_eq!(read_attr(src, tag, "x"), None);
    assert_eq!(read_attr(src, tag, "s"), None);
    let bare = b"<c r=A1 t=\"s\"/>";
    assert_eq!(read_attr(bare, parse(b"p", bare).unwrap().nodes[0], "t"), None);
}

#[test]
fn setting_an_attribute_replaces_its_value_or_adds_it_last() {
    let src = b"<c r=\"A1\" t='s'><v/></c>";
    let p = parse(b"p", src).unwrap();
    let replaced = set_attr(src, p.nodes[0], b"t", b"n");
    assert_eq!((replaced.start, replaced.end, replaced.text.as_slice()), (13, 14, b"n".as_slice()));
    let added = set_attr(src, p.nodes[0], b"s", b"12");
    assert_eq!((added.start, added.end, added.text.as_slice()), (15, 15, b" s=\"12\"".as_slice()));
    let in_empty = set_attr(src, p.nodes[1], b"a", b"");
    assert_eq!((in_empty.start, in_empty.end, in_empty.text.as_slice()), (18, 18, b" a=\"\"".as_slice()));
    let opened = open_up(p.nodes[1], b"7", "v");
    assert_eq!((opened.start, opened.end, opened.text.as_slice()), (18, 20, b">7</v>".as_slice()));
}

#[test]
fn text_is_escaped_for_xml() {
    let mut out = Vec::new();
    push_escaped(&mut out, b"a<b>&\"c\" 'd' \xc3\xa9");
    assert_eq!(out, b"a&lt;b&gt;&amp;&quot;c&quot; 'd' \xc3\xa9");
}

const STYLES: &str = "<styleSheet><fonts count=\"1\"><font><sz val=\"11\"/></font></fonts><fills count=\"2\"><fill><patternFill patternType=\"none\"/></fill><fill/></fills><borders><border/></borders><cellXfs count=\"1\"><xf numFmtId=\"0\"/></cellXfs></styleSheet>";

#[test]
fn the_entries_of_a_list_are_the_text_of_its_children() {
    let p = part(STYLES);
    assert_eq!(read_list(&p, Section::Fonts), Some(vec![b"<font><sz val=\"11\"/></font>".to_vec()]));
    assert_eq!(read_list(&p, Section::Fills), Some(vec![b"<fill><patternFill patternType=\"none\"/></fill>".to_vec(), b"<fill/>".to_vec()]));
    assert_eq!(read_list(&p, Section::Borders), Some(vec![b"<border/>".to_vec()]));
    assert_eq!(read_list(&p, Section::NumberFormats), None);
    assert_eq!(read_list(&p, Section::Strings), None);
    let sst = part("<sst uniqueCount=\"2\">\n <si><t>a</t></si>\n <si><r><t>b</t></r></si>\n</sst>");
    assert_eq!(read_list(&sst, Section::Strings), Some(vec![b"<si><t>a</t></si>".to_vec(), b"<si><r><t>b</t></r></si>".to_vec()]));
    assert_eq!(read_list(&part("<sst/>"), Section::Strings), Some(Vec::new()));
}

#[test]
fn an_entry_is_appended_and_counted() {
    let p = part(STYLES);
    assert_eq!(
        s(append_entry(&p, Section::Fills, b"<fill>new</fill>").unwrap()),
        STYLES.replace("<fills count=\"2\">", "<fills count=\"3\">").replace("<fill/></fills>", "<fill/><fill>new</fill></fills>")
    );
    assert_eq!(
        s(append_entry(&p, Section::Borders, b"<border>b</border>").unwrap()),
        STYLES.replace("<border/></borders>", "<border/><border>b</border></borders>")
    );
    assert_eq!(
        s(append_entry(&p, Section::NumberFormats, b"<numFmt/>").unwrap()),
        STYLES.replace("<styleSheet>", "<styleSheet><numFmts count=\"1\"><numFmt/></numFmts>")
    );
    assert_eq!(append_entry(&p, Section::Strings, b"<si/>"), Err(PatchError::UnsupportedFeature));
    assert_eq!(append_entry(&part("<styleSheet/>"), Section::Fonts, b"<font/>"), Err(PatchError::UnsupportedFeature));
    assert_eq!(s(append_entry(&part("<sst count='0' uniqueCount='0'/>"), Section::Strings, b"<si/>").unwrap()), "<sst count='0' uniqueCount='1'><si/></sst>");
    let spaced = part("<sst uniqueCount=\"1\">\n <si><t>a</t></si>\n</sst>\n");
    assert_eq!(s(append_entry(&spaced, Section::Strings, b"<si/>").unwrap()), "<sst uniqueCount=\"2\">\n <si><t>a</t></si>\n<si/></sst>\n");
}

fn bold() -> CellFormat {
    CellFormat {
        font: Font { bold: true, italic: false, color: None },
        fill: Fill { color: None },
        border: Border { style: BorderStyle::NoLine, color: None },
        number_format: b"General".to_vec(),
        alignment: Alignment { horizontal: HorizontalAlignment::General, wrap: false },
    }
}

#[test]
fn a_style_table_gives_equal_formats_one_id() {
    let mut t = StyleTable::load(&part(STYLES)).unwrap();
    assert_eq!((t.len(), t.fonts.len(), t.fills.len(), t.borders.len()), (1, 1, 2, 1));
    assert_eq!(t.get_or_insert(&bold()), Ok(1));
    assert_eq!((t.len(), t.fonts.len(), t.fills.len(), t.borders.len()), (2, 2, 2, 1));
    assert_eq!(t.get_or_insert(&bold()), Ok(1));
    assert_eq!((t.len(), t.fonts.len(), t.fills.len(), t.borders.len()), (2, 2, 2, 1));
    let italic = CellFormat { font: Font { bold: true, italic: true, color: None }, ..bold() };
    assert_eq!(t.get_or_insert(&italic), Ok(2));
    assert_eq!(t.get_or_insert(&bold()), Ok(1));
    assert_eq!(t.resolve(1).unwrap(), b"<xf numFmtId=\"0\" fontId=\"1\" fillId=\"0\" borderId=\"0\" xfId=\"0\" applyFont=\"1\"/>");
    assert_eq!(t.resolve(3).err(), Some(PatchError::InvalidIndex));
    let copy = t.duplicate();
    assert_eq!(copy.len(), 3);
    assert_eq!(StyleTable::load(&part("<styleSheet><fonts/></styleSheet>")).err(), Some(PatchError::UnsupportedFeature));
    let odd = STYLES.replace("<fonts", "<numFmts><numFmt numFmtId=\"x\" formatCode=\"0\"/></numFmts><fonts");
    assert_eq!(StyleTable::load(&part(&odd)).err(), Some(PatchError::UnsupportedFeature));
}

const BOOK: &str = "<workbook><sheets><sheet name=\"One\" sheetId=\"1\" r:id=\"rId1\"/><sheet r:id=\"rId7\" sheetId=\"5\" name=\"T&amp;wo\"/></sheets><definedNames><sheet name=\"no\"/></definedNames></workbook>";

#[test]
fn the_sheets_of_a_workbook_are_read_in_order() {
    let sheets = read_sheets(&part(BOOK)).unwrap();
    assert_eq!(sheets.len(), 2);
    assert_eq!((sheets[0].id, sheets[0].name.as_slice(), sheets[0].rel.as_slice()), (1, b"One".as_slice(), b"rId1".as_slice()));
    assert_eq!((sheets[1].id, sheets[1].name.as_slice(), sheets[1].rel.as_slice()), (5, b"T&amp;wo".as_slice(), b"rId7".as_slice()));
    assert_eq!(read_sheets(&part("<workbook><sheets><sheet name=\"One\" r:id=\"rId1\"/></sheets></workbook>")).err(), Some(PatchError::UnsupportedFeature));
    assert_eq!(read_sheets(&part("<workbook/>")).unwrap().len(), 0);
}

#[test]
fn relationships_lead_to_parts() {
    let rels = part("<Relationships><Relationship Id=\"rId1\" Target=\"worksheets/sheet1.xml\"/><Relationship Target=\"/xl/worksheets/s2.xml\" Id=\"rId2\"/><Relationship Id=\"rId3\"/></Relationships>");
    assert_eq!(find_target(&rels, b"rId1"), Some(b"worksheets/sheet1.xml".to_vec()));
    assert_eq!(find_target(&rels, b"rId2"), Some(b"/xl/worksheets/s2.xml".to_vec()));
    assert_eq!(find_target(&rels, b"rId3"), None);
    assert_eq!(find_target(&rels, b"rId9"), None);
    assert_eq!(path_of(b"worksheets/sheet1.xml"), b"xl/worksheets/sheet1.xml");
    assert_eq!(path_of(b"/xl/worksheets/s2.xml"), b"xl/worksheets/s2.xml");
    assert_eq!(path_of(b""), b"xl/");
}

#[test]
fn a_sheet_is_renamed_by_its_id() {
    assert_eq!(s(rename_sheet(&part(BOOK), 5, b"<new>").unwrap()), BOOK.replace("name=\"T&amp;wo\"", "name=\"&lt;new&gt;\""));
    assert_eq!(s(rename_sheet(&part(BOOK), 1, b"").unwrap()), BOOK.replace("name=\"One\"", "name=\"\""));
    assert_eq!(rename_sheet(&part(BOOK), 2, b"x"), Err(PatchError::UnknownSheet));
}

#[test]
fn rows_and_cells_move_as_references_do() {
    let f = SheetFormat::Modern;
    assert_eq!(move_row(5, Shift::InsertRow(5), f), Ok(Some(6)));
    assert_eq!(move_row(4, Shift::InsertRow(5), f), Ok(Some(4)));
    assert_eq!(move_row(5, Shift::DeleteRow(5), f), Ok(None));
    assert_eq!(move_row(6, Shift::DeleteRow(5), f), Ok(Some(5)));
    assert_eq!(move_row(5, Shift::DeleteColumn(1), f), Ok(Some(5)));
    assert_eq!(move_row(1_048_576, Shift::InsertRow(1), f), Err(PatchError::OutOfRangeReference));
    assert_eq!(move_cell(5, 3, Shift::InsertColumn(3), f), Ok(Some((5, 4))));
    assert_eq!(move_cell(5, 3, Shift::DeleteColumn(3), f), Ok(None));
    assert_eq!(move_cell(5, 3, Shift::DeleteRow(5), f), Ok(Some((5, 3))));
    assert_eq!(move_cell(5, 3, Shift::DeleteRow(2), f), Ok(Some((4, 3))));
    assert_eq!(move_cell(5, 16_384, Shift::InsertColumn(2), f), Err(PatchError::OutOfRangeReference));
    assert_eq!(move_cell(5, 256, Shift::InsertColumn(2), SheetFormat::Legacy), Err(PatchError::OutOfRangeReference));
}

#[test]
fn a_sheet_with_references_that_would_go_stale_is_not_shifted() {
    let plain = "<worksheet><sheetData><row r=\"2\"><c r=\"A2\"><v>1</v></c></row></sheetData></worksheet>";
    assert_eq!(s(shift_lines(&part(plain), Shift::InsertRow(1), SheetFormat::Modern).unwrap()), plain.replace("r=\"2\"", "r=\"3\"").replace("A2", "A3"));
    assert_eq!(s(shift_lines(&part(plain), Shift::InsertRow(3), SheetFormat::Modern).unwrap()), plain);
    assert_eq!(s(shift_lines(&part(plain), Shift::DeleteColumn(1), SheetFormat::Modern).unwrap()), plain.replace("<c r=\"A2\"><v>1</v></c>", ""));
    assert_eq!(s(shift_lines(&part("<worksheet><sheetData/></worksheet>"), Shift::DeleteRow(1), SheetFormat::Modern).unwrap()), "<worksheet><sheetData/></worksheet>");
    for extra in ["<mergeCells><mergeCell ref=\"A1:B2\"/></mergeCells>", "<hyperlinks><hyperlink ref=\"A1\"/></hyperlinks>", "<conditionalFormatting sqref=\"A1\"/>", "<dataValidations><dataValidation sqref=\"A1\"/></dataValidations>"] {
        let with = plain.replace("</sheetData>", &format!("</sheetData>{extra}"));
        assert!(contains_element(&part(&with), "sheetData"));
        assert_eq!(shift_lines(&part(&with), Shift::InsertRow(1), SheetFormat::Modern), Err(PatchError::UnsupportedFeature), "{}", extra);
    }
    let formula = plain.replace("<v>1</v>", "<f>B1</f><v>1</v>");
    assert_eq!(shift_lines(&part(&formula), Shift::InsertRow(1), SheetFormat::Modern), Err(PatchError::UnsupportedFeature));
    assert_eq!(shift_lines(&part("<worksheet/>"), Shift::InsertRow(1), SheetFormat::Modern), Err(PatchError::UnsupportedFeature));
    let last = plain.replace("r=\"2\"", "r=\"1048576\"").replace("A2", "A1048576");
    assert_eq!(shift_lines(&part(&last), Shift::InsertRow(7), SheetFormat::Modern), Err(PatchError::OutOfRangeReference));
    let crossed = "<worksheet><sheetData><row r=\"2\"><c r=\"A9\"/></row></sheetData></worksheet>";
    assert_eq!(shift_lines(&part(crossed), Shift::InsertRow(1), SheetFormat::Modern), Err(PatchError::UnsupportedFeature));
    assert_eq!(shift_lines(&part(crossed), Shift::DeleteColumn(5), SheetFormat::Modern), Err(PatchError::UnsupportedFeature));
    assert_eq!(s(shift_lines(&part(crossed), Shift::DeleteRow(2), SheetFormat::Modern).unwrap()), "<worksheet><sheetData></sheetData></worksheet>");
    let nested = "<worksheet><sheetData><row r=\"2\"><note><c r=\"Z1\"/></note><c r=\"B2\"><is><t>x</t></is></c></row><row r=\"5\"/></sheetData></worksheet>";
    assert_eq!(s(shift_lines(&part(nested), Shift::InsertRow(2), SheetFormat::Modern).unwrap()), nested.replace("<row r=\"2\">", "<row r=\"3\">").replace("B2", "B3").replace("<row r=\"5\"/>", "<row r=\"6\"/>"));
}

#[test]
fn an_archive_changed_by_hand_is_not_intact() {
    assert_eq!(read_directory(b"PK\x05\x06\0\0\0\0\0\0\0\0\0\0\0\0\0\0\0\0\0\0").map(|a| a.entries.len()), Ok(0));
    let mut empty = read_directory(b"PK\x05\x06\0\0\0\0\0\0\0\0\0\0\0\0\0\0\0\0\0\0").unwrap();
    assert!(empty.intact());
    empty.tail = 1;
    assert!(!empty.intact());
    assert_eq!(read_directory(b"PK\x05\x06\0\0\0\0\x01\0\x01\0\0\0\0\0\0\0\0\0\0\0").err(), Some(PatchError::CorruptArchive));
    assert_eq!(read_directory(b"PK\x05\x06\0\0\0\0\0\0\0\0\0\0\0\0\0\0\0\0\x01\0").err(), Some(PatchError::CorruptArchive));
    assert!(read_directory(b"junkPK\x05\x06\0\0\0\0\0\0\0\0\0\0\0\0\x04\0\0\0\x02\0ok").is_ok());
}
