use wolfxl::error::PatchError;
use wolfxl::info::build_info;
use wolfxl::numfmt::{builtin_code, builtin_id, NumberFormat, NumberFormatTable};
use wolfxl::render::{push_hex, render_border, render_fill, render_font, render_num_fmt, render_string, render_xf};
use wolfxl::splice::{apply_splices, check_ordered, splice_all, Splice};
use wolfxl::style::{Alignment, Border, BorderStyle, Fill, Font, HorizontalAlignment};
use wolfxl::write::{local_record, push_le};
use wolfxl::archive::Entry;

fn s(v: Vec<u8>) -> String {
    String::from_utf8(v).unwrap()
}

#[test]
fn colours_are_written_as_eight_capital_hex_digits() {
    let mut out = Vec::new();
    push_hex(&mut out, 0xFF00ab1c, 8);
    assert_eq!(out, b"FF00AB1C");
    let mut out = Vec::new();
    push_hex(&mut out, 0x1f, 4);
    assert_eq!(out, b"001F");
    let mut out = Vec::new();
    push_hex(&mut out, 0xabc, 2);
    assert_eq!(out, b"BC");
}

#[test]
fn components_have_one_spelling() {
    assert_eq!(s(render_font(&Font { bold: true, italic: true, color: Some(0xFFFF0000) })), "<font><b/><i/><color rgb=\"FFFF0000\"/></font>");
    assert_eq!(s(render_font(&Font { bold: false, italic: false, color: None })), "<font></font>");
    assert_eq!(s(render_fill(&Fill { color: None })), "<fill><patternFill patternType=\"none\"/></fill>");
    assert_eq!(s(render_fill(&Fill { color: Some(1) })), "<fill><patternFill patternType=\"solid\"><fgColor rgb=\"00000001\"/></patternFill></fill>");
    assert_eq!(
        s(render_border(&Border { style: BorderStyle::Thick, color: Some(0xFF000000) })),
        "<border><left style=\"thick\"><color rgb=\"FF000000\"/></left><right style=\"thick\"><color rgb=\"FF000000\"/></right><top style=\"thick\"><color rgb=\"FF000000\"/></top><bottom style=\"thick\"><color rgb=\"FF000000\"/></bottom><diagonal/></border>"
    );
    let general = Alignment { horizontal: HorizontalAlignment::General, wrap: false };
    assert_eq!(s(render_xf(0, 0, 0, 0, &general)), "<xf numFmtId=\"0\" fontId=\"0\" fillId=\"0\" borderId=\"0\" xfId=\"0\"/>");
    assert_eq!(
        s(render_xf(14, 2, 3, 4, &Alignment { horizontal: HorizontalAlignment::Right, wrap: false })),
        "<xf numFmtId=\"14\" fontId=\"2\" fillId=\"3\" borderId=\"4\" xfId=\"0\" applyNumberFormat=\"1\" applyFont=\"1\" applyFill=\"1\" applyBorder=\"1\" applyAlignment=\"1\"><alignment horizontal=\"right\"/></xf>"
    );
    assert_eq!(s(render_num_fmt(164, b"0.0")), "<numFmt numFmtId=\"164\" formatCode=\"0.0\"/>");
    assert_eq!(s(render_string(b"a&b")), "<si><t>a&amp;b</t></si>");
    assert_eq!(s(render_string(b"")), "<si><t></t></si>");
    assert_eq!(s(render_string(b"x\n")), "<si><t xml:space=\"preserve\">x\n</t></si>");
}

#[test]
fn built_in_number_formats_have_fixed_ids() {
    assert_eq!(builtin_code(0), Some("General"));
    assert_eq!(builtin_code(49), Some("@"));
    assert_eq!(builtin_code(5), None);
    assert_eq!(builtin_code(164), None);
    assert_eq!(builtin_id(b"General"), Some(0));
    assert_eq!(builtin_id(b"0.00"), Some(2));
    assert_eq!(builtin_id(b"mm-dd-yy"), Some(14));
    assert_eq!(builtin_id(b"@"), Some(49));
    assert_eq!(builtin_id(b"0.0000"), None);
    for id in 0..200u32 {
        if let Some(code) = builtin_code(id) {
            assert_eq!(builtin_id(code.as_bytes()), Some(id));
        }
    }
}

#[test]
fn custom_number_formats_get_ids_from_164_on() {
    let mut t = NumberFormatTable::new();
    assert_eq!(t.get_or_insert(b""), Ok(0));
    assert_eq!(t.get_or_insert(b"0%"), Ok(9));
    assert_eq!(t.len(), 0);
    assert_eq!(t.get_or_insert(b"0.0"), Ok(164));
    assert_eq!(t.get_or_insert(b"0.0"), Ok(164));
    assert_eq!(t.len(), 1);
    assert_eq!(t.get_or_insert(b"\"x\"0"), Ok(165));
    assert_eq!(t.len(), 2);
    assert_eq!(t.resolve(165), Ok(b"&quot;x&quot;0".to_vec()));
    assert_eq!(t.resolve(164), Ok(b"0.0".to_vec()));
    assert_eq!(t.resolve(2), Ok(b"0.00".to_vec()));
    assert_eq!(t.resolve(166), Err(PatchError::InvalidIndex));
    assert_eq!(t.resolve(5), Err(PatchError::InvalidIndex));
    let copy = t.duplicate();
    assert_eq!(copy.len(), 2);
    assert_eq!(copy.get(1).id, 165);
}

#[test]
fn declared_ids_are_never_given_again() {
    let mut t = NumberFormatTable::from_formats(vec![
        NumberFormat { id: 170, code: b"a".to_vec() },
        NumberFormat { id: 44, code: b"b".to_vec() },
        NumberFormat { id: 166, code: b"a".to_vec() },
    ]);
    assert_eq!(t.get_or_insert(b"a"), Ok(170));
    assert_eq!(t.get_or_insert(b"b"), Ok(44));
    assert_eq!(t.resolve(44), Ok(b"b".to_vec()));
    assert_eq!(t.get_or_insert(b"c"), Ok(171));
    assert_eq!(t.get_or_insert(b"d"), Ok(172));
    let mut full = NumberFormatTable::from_formats(vec![NumberFormat { id: u32::MAX, code: b"a".to_vec() }]);
    assert_eq!(full.get_or_insert(b"z"), Err(PatchError::UnsupportedFeature));
    assert_eq!(full.get_or_insert(b"a"), Ok(u32::MAX));
    assert_eq!(full.len(), 1);
}

fn splice(start: usize, end: usize, text: &str) -> Splice {
    Splice { start, end, text: text.as_bytes().to_vec() }
}

#[test]
fn splices_replace_ranges_and_keep_the_rest() {
    let src = b"0123456789";
    assert_eq!(apply_splices(src, &Vec::new()), src);
    let list = vec![splice(0, 0, "<"), splice(2, 4, "ab_cd"), splice(4, 4, "!"), splice(9, 10, "")];
    assert!(check_ordered(&list, src.len()));
    assert_eq!(s(apply_splices(src, &list)), "<01ab_cd!45678");
    assert_eq!(splice_all(src, &list).map(s), Some("<01ab_cd!45678".to_string()));
}

#[test]
fn splices_out_of_order_are_refused() {
    let src = b"0123456789";
    assert_eq!(splice_all(src, &vec![splice(4, 6, "x"), splice(5, 7, "y")]), None);
    assert_eq!(splice_all(src, &vec![splice(4, 6, "x"), splice(2, 3, "y")]), None);
    assert_eq!(splice_all(src, &vec![splice(6, 4, "x")]), None);
    assert_eq!(splice_all(src, &vec![splice(9, 11, "x")]), None);
    assert!(!check_ordered(&vec![splice(0, 11, "")], 10));
    assert!(check_ordered(&vec![splice(10, 10, "tail")], 10));
}

#[test]
fn numbers_are_written_low_byte_first() {
    let mut out = Vec::new();
    push_le(&mut out, 0x0403_4b50, 4);
    push_le(&mut out, 20, 2);
    push_le(&mut out, 0x1_0203, 2);
    assert_eq!(out, [0x50, 0x4b, 0x03, 0x04, 20, 0, 3, 2]);
}

#[test]
fn a_local_record_carries_the_new_sizes_and_no_descriptor() {
    let mut src = vec![0u8; 120];
    src[10..14].copy_from_slice(&[0x11, 0x22, 0x33, 0x44]);
    src[60 + 46..60 + 49].copy_from_slice(b"a.b");
    let e = Entry { header: 60, name_len: 3, next: 60 + 49, flags: 0x0808, method: 8, crc: 1, packed: 5, size: 9, local: 0, data: 40 };
    let rec = local_record(&src, &e, &[9, 8, 7], 12, 0xAABBCCDD);
    assert_eq!(
        rec,
        [
            0x50, 0x4b, 0x03, 0x04, 20, 0, 0x00, 0x08, 8, 0, 0x11, 0x22, 0x33, 0x44, 0xDD, 0xCC, 0xBB, 0xAA, 3, 0, 0, 0,
            12, 0, 0, 0, 3, 0, 0, 0, b'a', b'.', b'b', 9, 8, 7
        ]
    );
}

#[test]
fn the_engine_reports_its_identity() {
    let info = build_info("1.2.3".to_string(), Some("0.26.1".to_string()), None);
    assert_eq!(info.package, "wolfxl");
    assert_eq!(info.package_version, "1.2.3");
    assert_eq!(info.enabled_backends, vec!["calamine-styles", "rust_xlsxwriter", "wolfxl"]);
    assert_eq!(
        info.backend_versions,
        vec![("calamine-styles", Some("0.26.1".to_string())), ("rust_xlsxwriter", None)]
    );
}
