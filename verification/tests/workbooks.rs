use wolfxl::applier::apply;
use wolfxl::archive::{read_directory, Archive};
use wolfxl::cellref::{CellRef, SheetFormat};
use wolfxl::document::Document;
use wolfxl::edit::{CellValue, Edit};
use wolfxl::error::PatchError;
use wolfxl::part::parse;
use wolfxl::plan::{Content, Mutation, Section};
use wolfxl::planner::plan;
use wolfxl::session::{open, patch, Session};
use wolfxl::edit::Shift;
use wolfxl::style::{Alignment, Border, BorderStyle, CellFormat, Fill, Font, HorizontalAlignment};
use wolfxl::write::Edited;

const BOOK: &str = "\
504b030414000000080083182258e57f93241d010000b8030000130000005b436f6e74656e745f54797065735d2e786d\
6cc5534b4b033110befb2b42aea549db8388ec6e0f3e8e2a587fc098cc7643f32293d6f6df9b6eab88548bb0e06948be\
270953cdb7ceb20d2632c1d77c2a269ca157411bbfacf9cbe27e7cc51965f01a6cf058f31d129f3717d562179158117b\
aa799773bc969254870e488488be206d480e7239a6a58ca056b044399b4c2ea50a3ea3cfe3bcf7e04d758b2dac6d6677\
db727d2892d012673707e23eabe610a3350a72c1e5c6eb6f29e3638228ca9e439d89342a042e4f26ec919f038ebac7f2\
32c968644f90f203b8c2925b2bdf425abd86b012bf9b9c6819dad628d441ad5d91088a09415387989d15fd140e8c1f9d\
cfefc924fb311db8c8a7ff1f7bccfea907e59d451afa377ad373c91d24d4cf39957d19bcc057ef8f1eb25fbce61d504b\
0304140000000800831822580659c782b1000000280100000b0000005f72656c732f2e72656c738dcfb10e82301006e0\
dda7686e9782833186c2624c580d3e406d8f42805ed35685b7b7a31a07c7cbfdf7fdb9b25ee6893dd08781ac8022cb81\
a155a4076b045cdbf3f6002c4469b59cc8a2801503d4d5a6bce02463ba09fde0024b880d02fa18dd91f3a07a9c65c8c8\
a14d9b8efc2c631abde14eaa511ae4bb3cdf73ff6e40f561b2460bf08d2e80b5abc37f6ceaba41e189d47d461b7f547c\
25922cbdc1286099f893fc78231ab38402af4afef160f502504b0304140000000800831822584adec7edfb000000aa01\
00000f000000786c2f776f726b626f6f6b2e786d6c8d50bb6ec3300cdcfb1582866e8d6c0f45e35ace1214c856a0af99\
95e85888251a925a277f5fc9815b8f9d780479c73b36bbb31dd837fa60c8495e6e0aced029d2c61d257f7b7dba7be02c\
44701a067228f90503dfb537cd44fef449746289ef82e47d8c632d44503d5a081b1ad1a54947de424cad3f8a307a041d\
7ac468075115c5bdb0601cbf2ad4fe3f1ad47546e19ed4974517af221e0788c97de8cd1878db6457ef06a7d0fe9acc2d\
3b7f18a769923c45bcfc61d136624599fd2d9539b029f34bc665fa43ae079ddec499af4d02fea0cbacb0dede4304760b\
767c64963cae68d58a56cd87976b0a06f5ec592eb3feb62caaedbcb144687f00504b030414000000080083182258f953\
6fd4e2000000c20200001a000000786c2f5f72656c732f776f726b626f6f6b2e786d6c2e72656c73bd92c16ac3300c86\
ef7b0aa3fbe2241d638c3abd8c41af5df600c656e2d0c43696d62e6f3f8fb12d855276283b1949f8fb3f90d69bf76914\
074c3404afa02a4a10e84db083ef15bcb6cfb70f2088b5b77a0c1e15cc48b0696ed63b1c35e73fe4864822433c2970cc\
f1514a320e274d4588e8f3a40b69d29ccbd4cba8cd5ef728ebb2bc9769c980e68429b65641dada1588768ef81776e8ba\
c1e053306f137a3e132189e731fb8b56a71e59c1575d640ec8f3f1f535e38f21edc921f2afc14f2bcb7d3ef52599ea9f\
65aa4b3277575d8cd309ed0ba77c76cbfd2cdbdf32f2e4f49a0f504b03041400000008008318225864cee8485e010000\
2e02000018000000786c2f776f726b7368656574732f7368656574312e786d6c6551cb6edc300cbcf72b581d929357f6\
362f3896820445811c7a4b72572cae2dac251a92e24dfebed4babb28d01b67440d87c3eee1d34fb0604c8e8212cda616\
80a127ebc2a0c4ebcbafea4e40ca265833514025be308907fdad3b50dca71131030b84a4c498f3dc4a99fa11bd491b9a\
31f0cb8ea23799611c649a231a7bfce427b9adeb1be98d0b62556817253e6268170c96628b9f59e8ce3a8fa15883883b\
251e9bf6a91152774791378787f44f0dc5d33bd1be8067ab445d5ae57fbd3f4d36ba8b7480c81bf37ab3290b34ed9627\
f6857c64362b91182fbaeee4c232fddf373650d8abed99962c759ab36a2f6dfa0a79c4ec7ad823ce6b6c8577216004a3\
2e9b4b1d2883278b135ab8307ebe87807c09c8f4c1215ad65fdb75f7bdaa60cd057af21c4986aad2a5e13c4777b319f0\
b789830b0926dcb1ff7a732b20ba613cd599e663752de09d72267f42231f0663413f04ec88f2099400cfa7d67f00504b\
030414000000080083182258079ae8a2840000009d00000018000000786c2f776f726b7368656574732f736865657432\
2e786d6c3d8c4b0ec2300c05f79c22f29ebab0400825e9a6e2047000ab314d45e35471c4e7f6545db09c377a63bb4f9a\
cd8b8b4e591c1c9a160ccb90c324a383fbedba3f83d14a1268cec20ebeacd0f99d7de7f2d4c85ccd1a1075106b5d2e88\
3a444ea44d5e5856f3c825515db18ca84b610adb29cd786cdb13269a04bcddb69e2aa1b7f82ffb1f504b030414000000\
080083182258bedbba9893000000b400000014000000786c2f736861726564537472696e67732e786d6c358d310ec230\
0c45774e1179a72e0c08a1341d9038011c206a0d899438257611dc9e3030befff5f4ecf8cec9bca84a2c3cc0aeebc110\
4f658efc18e076bd6c8f60443dcf3e15a6013e2430ba8d1551d354960182ea7242942950f6d29585b83df752b3d786f5\
81b254f2b30422cd09f77d7fc0ec238399cacadab260568ecf95ce7f7656a2b3ea02a5542caab3f81bb065dd17504b03\
0414000000080083182258f194cd3b59010000ed0200000d000000786c2f7374796c65732e786d6ca5924d6bc3300c86\
effb15c6f7d54d60638c243d0c0abbecd20e7675132731d872b0d592ecd74f8ed32f18ecb093a4d7d623c972b119ad61\
27e5837650f26cb5e64c41ed1a0d5dc93ff7dbc717ce024a68a471a04a3ea9c037d5431170326ad72b858c08104ade23\
0eaf4284ba575686951b14d049ebbc9548a1ef4418bc924d8849d6887cbd7e16566ae055d13ac0c06a7704a42616a12a\
c2373b49434ac6455580b42ac56fd2e883d7516ca5d5664a721e85b9fe72cf6a703e8a22f1661328491b732997f32454\
c5201195872d056cf1f7d34043038d9e30f3bd3f6e775e4e59fe7493301baa7b70bea1a7be1d34495561548b94e075d7\
478b6e10f110d159721a2d3b07d244e4396371085b2b6376711f5fed1d7b6c191cedd6e27b53725a6c9cfeec52438b9b\
302988fc5b5a62ff1bcbc6f69e7f41cf85eee81795c57d97fc237e207345b0c3511bd4f04bc3c46cc66bafe9f4fa51ab\
1f504b0304140000000000831822587635611c000200000002000011000000786c2f6d656469612f626c6f622e62696e\
000102030405060708090a0b0c0d0e0f101112131415161718191a1b1c1d1e1f202122232425262728292a2b2c2d2e2f\
303132333435363738393a3b3c3d3e3f404142434445464748494a4b4c4d4e4f505152535455565758595a5b5c5d5e5f\
606162636465666768696a6b6c6d6e6f707172737475767778797a7b7c7d7e7f808182838485868788898a8b8c8d8e8f\
909192939495969798999a9b9c9d9e9fa0a1a2a3a4a5a6a7a8a9aaabacadaeafb0b1b2b3b4b5b6b7b8b9babbbcbdbebf\
c0c1c2c3c4c5c6c7c8c9cacbcccdcecfd0d1d2d3d4d5d6d7d8d9dadbdcdddedfe0e1e2e3e4e5e6e7e8e9eaebecedeeef\
f0f1f2f3f4f5f6f7f8f9fafbfcfdfeff000102030405060708090a0b0c0d0e0f101112131415161718191a1b1c1d1e1f\
202122232425262728292a2b2c2d2e2f303132333435363738393a3b3c3d3e3f404142434445464748494a4b4c4d4e4f\
505152535455565758595a5b5c5d5e5f606162636465666768696a6b6c6d6e6f707172737475767778797a7b7c7d7e7f\
808182838485868788898a8b8c8d8e8f909192939495969798999a9b9c9d9e9fa0a1a2a3a4a5a6a7a8a9aaabacadaeaf\
b0b1b2b3b4b5b6b7b8b9babbbcbdbebfc0c1c2c3c4c5c6c7c8c9cacbcccdcecfd0d1d2d3d4d5d6d7d8d9dadbdcdddedf\
e0e1e2e3e4e5e6e7e8e9eaebecedeeeff0f1f2f3f4f5f6f7f8f9fafbfcfdfeff504b0102140314000000080083182258\
e57f93241d010000b80300001300000000000000000000008001000000005b436f6e74656e745f54797065735d2e786d\
6c504b01021403140000000800831822580659c782b1000000280100000b000000000000000000000080014e0100005f\
72656c732f2e72656c73504b01021403140000000800831822584adec7edfb000000aa0100000f000000000000000000\
0000800128020000786c2f776f726b626f6f6b2e786d6c504b0102140314000000080083182258f9536fd4e2000000c2\
0200001a0000000000000000000000800150030000786c2f5f72656c732f776f726b626f6f6b2e786d6c2e72656c7350\
4b010214031400000008008318225864cee8485e0100002e02000018000000000000000000000080016a040000786c2f\
776f726b7368656574732f7368656574312e786d6c504b0102140314000000080083182258079ae8a2840000009d0000\
001800000000000000000000008001fe050000786c2f776f726b7368656574732f7368656574322e786d6c504b010214\
0314000000080083182258bedbba9893000000b40000001400000000000000000000008001b8060000786c2f73686172\
6564537472696e67732e786d6c504b0102140314000000080083182258f194cd3b59010000ed0200000d000000000000\
000000000080017d070000786c2f7374796c65732e786d6c504b01021403140000000000831822587635611c00020000\
00020000110000000000000000000000800101090000786c2f6d656469612f626c6f622e62696e504b05060000000009\
00090047020000300b00000000";

const BARE: &str = "\
504b03041400000008008318225896e95a62f40000001d020000130000005b436f6e74656e745f54797065735d2e786d\
6cad91bd4ec33010c7779ec2f25ac597322084927480760486f200877349acf84bb65bc2dbe3a485011558984ef6ffe3\
77b2abcd64343b5288cad99aaf45c91959e95a65fb9abfec77c52ddf3457d5fedd5364d96b63cd8794fc1d409403198c\
c279b259e95c3098f231f4e0518ed8135c97e50d486713d954a4b98337d5037578d0896da77c7de206d291b3fb937166\
d51cbdd74a62ca3a1c6dfb8d529c092227174f1c948fab6ce07091302b3f03ceb9a7fc1041b5c49e31a44734d9059386\
3717c657e746f17bc9852d5dd72949ad9307932322fa40d8c68128192d96290c2abbfa9bbf98232c63fdcf8b7cf57fee\
01cb77371f504b030414000000000083182258ac02276817010000170100000b0000005f72656c732f2e72656c733c3f\
786d6c2076657273696f6e3d22312e302220656e636f64696e673d225554462d38223f3e0a3c52656c6174696f6e7368\
69707320786d6c6e733d22687474703a2f2f736368656d61732e6f70656e786d6c666f726d6174732e6f72672f706163\
6b6167652f323030362f72656c6174696f6e7368697073223e3c52656c6174696f6e736869702049643d227249643122\
20547970653d22687474703a2f2f736368656d61732e6f70656e786d6c666f726d6174732e6f72672f6f666669636544\
6f63756d656e742f323030362f72656c6174696f6e73686970732f6f6666696365446f63756d656e7422205461726765\
743d22786c2f776f726b626f6f6b2e786d6c222f3e3c2f52656c6174696f6e73686970733e504b030414000000080083\
182258df9d281cb40000000c0100000f000000786c2f776f726b626f6f6b2e786d6c8d8f3d0ec2300c85774e11798714\
8410aa9a7641482c4c7080b47569d426aeecf0737c22a03b93ed67fbb35f51bdfca81ec8e2281858af3250181a6a5db8\
19b85e8ecb3d54e5a278120f35d1a0d27810037d8c53aeb5343d7a2b2b9a30a44e47ec6d4c25dfb44c8cb6951e31fa51\
6fb26ca7bd7501be849cff6150d7b9060fd4dc3d86f885308e36a667a5779340597c2ec82faa603d1a38df7d9d2c81fa\
88a7d6c01614e72e257c6ad7a0cb42cf7b7ab656be01504b0304140000000000831822581593bec31c0100001c010000\
1a000000786c2f5f72656c732f776f726b626f6f6b2e786d6c2e72656c733c3f786d6c2076657273696f6e3d22312e30\
2220656e636f64696e673d225554462d38223f3e0a3c52656c6174696f6e736869707320786d6c6e733d22687474703a\
2f2f736368656d61732e6f70656e786d6c666f726d6174732e6f72672f7061636b6167652f323030362f72656c617469\
6f6e7368697073223e3c52656c6174696f6e736869702049643d22724964312220547970653d22687474703a2f2f7363\
68656d61732e6f70656e786d6c666f726d6174732e6f72672f6f6666696365446f63756d656e742f323030362f72656c\
6174696f6e73686970732f776f726b736865657422205461726765743d222f786c2f776f726b7368656574732f736865\
6574312e786d6c222f3e3c2f52656c6174696f6e73686970733e504b030414000000080083182258229b8f4393000000\
be00000018000000786c2f776f726b7368656574732f7368656574312e786d6c4d4e410ac23010bcfb8a90bbddd68388\
a42905f105fa8090ae4db049ca26b43edf6d0fe26187d9d9196655f709935890b24fb1954d554b81d1a6c1c7b195cfc7\
fd78919d3ea835d13b3bc422d81f732b5d29f315205b87c1e42acd18f9f24a144ce19546c833a119f65098e054d76708\
c647a9d5aedd4c315a515a05712fab7623fdc616dd2858b402cbc30ec6bf08fc7ed15f504b0102140314000000080083\
18225896e95a62f40000001d0200001300000000000000000000008001000000005b436f6e74656e745f54797065735d\
2e786d6c504b0102140314000000000083182258ac02276817010000170100000b000000000000000000000080012501\
00005f72656c732f2e72656c73504b0102140314000000080083182258df9d281cb40000000c0100000f000000000000\
0000000000800165020000786c2f776f726b626f6f6b2e786d6c504b01021403140000000000831822581593bec31c01\
00001c0100001a0000000000000000000000800146030000786c2f5f72656c732f776f726b626f6f6b2e786d6c2e7265\
6c73504b0102140314000000080083182258229b8f4393000000be00000018000000000000000000000080019a040000\
786c2f776f726b7368656574732f7368656574312e786d6c504b0506000000000500050045010000630500000f006d61\
646520666f7220612074657374";

fn unhex(text: &str) -> Vec<u8> {
    let digits = text.as_bytes();
    let value = |d: u8| if d >= b'a' { d - b'a' + 10 } else { d - b'0' };
    (0..digits.len() / 2).map(|i| value(digits[2 * i]) * 16 + value(digits[2 * i + 1])).collect()
}

fn bare() -> Vec<u8> {
    unhex(BARE)
}

fn book() -> Vec<u8> {
    unhex(BOOK)
}

fn text(archive: &[u8], name: &str) -> String {
    let a = open(archive).unwrap();
    String::from_utf8(a.entry(name.as_bytes()).unwrap()).unwrap()
}

fn raw(a: &Archive, name: &str) -> Vec<u8> {
    let e = a.entries[a.find(name.as_bytes()).unwrap()];
    a.src[e.local..e.data + e.packed].to_vec()
}

fn names(a: &Archive) -> Vec<String> {
    a.entries
        .iter()
        .map(|e| String::from_utf8(a.src[e.header + 46..e.header + 46 + e.name_len].to_vec()).unwrap())
        .collect()
}

fn cell(sheet: u32, row: u32, col: u32) -> CellRef {
    CellRef { sheet, row, col }
}

fn set_text(sheet: u32, row: u32, col: u32, t: &str) -> Edit {
    Edit::SetCellValue { cell: cell(sheet, row, col), value: CellValue::Text(t.as_bytes().to_vec()) }
}

fn set_number(sheet: u32, row: u32, col: u32, n: &str) -> Edit {
    Edit::SetCellValue { cell: cell(sheet, row, col), value: CellValue::Number(n.as_bytes().to_vec()) }
}

fn plain() -> CellFormat {
    CellFormat {
        font: Font { bold: false, italic: false, color: None },
        fill: Fill { color: None },
        border: Border { style: BorderStyle::NoLine, color: None },
        number_format: Vec::new(),
        alignment: Alignment { horizontal: HorizontalAlignment::General, wrap: false },
    }
}

fn bold_red() -> CellFormat {
    CellFormat { font: Font { bold: true, italic: false, color: Some(0xFFFF0000) }, ..plain() }
}

fn set_format(sheet: u32, row: u32, col: u32, format: CellFormat) -> Edit {
    Edit::SetCellFormat { cell: cell(sheet, row, col), format }
}

const SHEET1: &str = "xl/worksheets/sheet1.xml";
const SHEET2: &str = "xl/worksheets/sheet2.xml";
const STRINGS: &str = "xl/sharedStrings.xml";
const STYLES: &str = "xl/styles.xml";
const WORKBOOK: &str = "xl/workbook.xml";
const SYNTHETIC: &str = "<v:synthetic keep=\"yes\"><v:inner a='1'>not modeled &amp; never touched</v:inner><!-- vendor comment --></v:synthetic>";

#[test]
fn a_workbook_opens_and_its_parts_can_be_read() {
    let bytes = book();
    let a = open(&bytes).unwrap();
    assert_eq!(a.src, bytes);
    assert_eq!(
        names(&a),
        vec![
            "[Content_Types].xml",
            "_rels/.rels",
            WORKBOOK,
            "xl/_rels/workbook.xml.rels",
            SHEET1,
            SHEET2,
            STRINGS,
            STYLES,
            "xl/media/blob.bin"
        ]
    );
    assert!(text(&bytes, STRINGS).ends_with("uniqueCount=\"1\"><si><t>hello</t></si></sst>"));
    let blob = a.entry(b"xl/media/blob.bin").unwrap();
    assert_eq!(blob.len(), 512);
    assert_eq!(blob[255], 255);
    assert_eq!(a.entry(b"xl/absent.xml"), Err(PatchError::PartNotFound));
    assert_eq!(a.find(b"xl/absent.xml"), None);
    assert_eq!(a.find(STYLES.as_bytes()), Some(7));
}

#[test]
fn a_document_knows_its_sheets_and_tables() {
    let doc = Document::load(open(&book()).unwrap(), SheetFormat::Modern).unwrap();
    assert_eq!(doc.sheets.len(), 2);
    assert_eq!(doc.sheets[0].id, 1);
    assert_eq!(doc.sheets[0].name, b"Sheet1");
    assert_eq!(doc.sheets[0].part, SHEET1.as_bytes());
    assert_eq!(doc.sheets[1].id, 2);
    assert_eq!(doc.sheets[1].name, b"Data &amp; more");
    assert_eq!(doc.sheets[1].part, SHEET2.as_bytes());
    assert_eq!(doc.sheet_index(2), Ok(1));
    assert_eq!(doc.sheet_index(3), Err(PatchError::UnknownSheet));
    assert_eq!(doc.sheet_id(b"Sheet1"), Ok(1));
    assert_eq!(doc.sheet_id(b"Nope"), Err(PatchError::UnknownSheet));
    assert_eq!(doc.strings.len(), 1);
    assert_eq!(doc.strings.resolve(0).unwrap(), b"<si><t>hello</t></si>");
    assert_eq!(doc.strings.resolve(1).err(), Some(PatchError::InvalidIndex));
    assert_eq!(doc.styles.len(), 1);
    assert_eq!(doc.styles.fonts.len(), 1);
    assert_eq!(doc.styles.fills.len(), 2);
    assert_eq!(doc.styles.borders.len(), 1);
    assert_eq!(doc.styles.number_formats.len(), 0);
    assert_eq!(doc.styles.resolve(0).unwrap(), b"<xf numFmtId=\"0\" fontId=\"0\" fillId=\"0\" borderId=\"0\" xfId=\"0\"/>");
    assert_eq!(doc.styles.resolve(1).err(), Some(PatchError::InvalidIndex));
    assert_eq!(doc.part_bytes(b"nowhere"), Err(PatchError::PartNotFound));
}

#[test]
fn a_round_trip_without_edits_is_byte_identical() {
    let bytes = book();
    let a = open(&bytes).unwrap();
    assert_eq!(wolfxl::write::write(&a, &Vec::new()), Ok(bytes.clone()));
    assert_eq!(patch(&bytes, SheetFormat::Modern, Vec::new()), Ok(bytes.clone()));
    let mut s = Session::open(&bytes, SheetFormat::Modern).unwrap();
    assert_eq!(s.pending(), 0);
    assert_eq!(s.commit(), Ok(bytes));
}

#[test]
fn replacing_a_string_adds_a_shared_string_and_leaves_the_rest() {
    let bytes = book();
    let out = patch(&bytes, SheetFormat::Modern, vec![set_text(1, 1, 1, "world")]).unwrap();
    let before = text(&bytes, SHEET1);
    let after = text(&out, SHEET1);
    assert_eq!(after, before.replace("<c r=\"A1\" t=\"s\"><v>0</v></c>", "<c r=\"A1\" t=\"s\"><v>1</v></c>"));
    assert!(after.contains("<c r=\"B1\"><v>42</v></c>"));
    assert_eq!(
        text(&out, STRINGS),
        text(&bytes, STRINGS).replace(
            "uniqueCount=\"1\"><si><t>hello</t></si></sst>",
            "uniqueCount=\"2\"><si><t>hello</t></si><si><t>world</t></si></sst>"
        )
    );
    let a = open(&bytes).unwrap();
    let b = open(&out).unwrap();
    assert_eq!(names(&a), names(&b));
    for name in ["[Content_Types].xml", "_rels/.rels", WORKBOOK, "xl/_rels/workbook.xml.rels", SHEET2, STYLES, "xl/media/blob.bin"] {
        assert_eq!(raw(&a, name), raw(&b, name), "{}", name);
    }
    let doc = Document::load(b, SheetFormat::Modern).unwrap();
    assert_eq!(doc.strings.len(), 2);
    assert_eq!(doc.strings.resolve(1).unwrap(), b"<si><t>world</t></si>");
}

#[test]
fn a_string_that_is_present_is_reused() {
    let bytes = book();
    let out = patch(&bytes, SheetFormat::Modern, vec![set_text(1, 2, 1, "hello"), set_text(1, 2, 2, "a < b"), set_text(2, 1, 1, "a < b"), set_text(1, 3, 1, " padded ")]).unwrap();
    let sheet = text(&out, SHEET1);
    assert!(sheet.contains("<row r=\"2\"><c r=\"A2\" t=\"s\"><v>0</v></c><c r=\"B2\" t=\"s\"><v>1</v></c></row><row r=\"3\"><c r=\"A3\" t=\"s\"><v>2</v></c></row></sheetData>"));
    assert!(text(&out, SHEET2).contains("<sheetData><row r=\"1\"><c r=\"A1\" t=\"s\"><v>1</v></c></row></sheetData>"));
    assert!(text(&out, STRINGS).ends_with("uniqueCount=\"3\"><si><t>hello</t></si><si><t>a &lt; b</t></si><si><t xml:space=\"preserve\"> padded </t></si></sst>"));
    assert_eq!(text(&out, STYLES), text(&bytes, STYLES));
}

#[test]
fn an_identical_style_reuses_its_id() {
    let bytes = book();
    let mut s = Session::open(&bytes, SheetFormat::Modern).unwrap();
    assert_eq!(s.doc.styles.len(), 1);
    s.enqueue(set_format(1, 1, 2, bold_red()));
    let first = s.commit().unwrap();
    assert_eq!(s.doc.styles.len(), 2);
    assert_eq!(s.doc.styles.fonts.len(), 2);
    assert!(text(&first, SHEET1).contains("<c r=\"B1\" s=\"1\"><v>42</v></c>"));
    s.enqueue(set_format(1, 5, 5, bold_red()));
    let second = s.commit().unwrap();
    assert_eq!(s.doc.styles.len(), 2);
    assert_eq!(s.doc.styles.fonts.len(), 2);
    let sheet = text(&second, SHEET1);
    assert!(sheet.contains("<c r=\"B1\" s=\"1\"><v>42</v></c>"));
    assert!(sheet.contains("<row r=\"5\"><c r=\"E5\" s=\"1\"/></row>"));
    let styles = text(&second, STYLES);
    assert!(styles.contains("<fonts count=\"2\"><font><sz val=\"11\"/><name val=\"Calibri\"/><family val=\"2\"/><scheme val=\"minor\"/></font><font><b/><color rgb=\"FFFF0000\"/></font></fonts>"));
    assert!(styles.contains("<cellXfs count=\"2\"><xf numFmtId=\"0\" fontId=\"0\" fillId=\"0\" borderId=\"0\" xfId=\"0\"/><xf numFmtId=\"0\" fontId=\"1\" fillId=\"0\" borderId=\"0\" xfId=\"0\" applyFont=\"1\"/></cellXfs>"));
    assert!(styles.contains("<cellStyles count=\"1\"><cellStyle name=\"Normal\" xfId=\"0\" builtinId=\"0\"/></cellStyles><dxfs count=\"0\"/>"));
    let both = patch(&bytes, SheetFormat::Modern, vec![set_format(1, 1, 2, bold_red()), set_format(1, 5, 5, bold_red())]).unwrap();
    assert_eq!(text(&both, STYLES), styles);
    assert_eq!(text(&both, SHEET1), sheet);
}

#[test]
fn a_row_beyond_the_grid_is_out_of_range_and_nothing_is_produced() {
    let bytes = book();
    assert_eq!(
        patch(&bytes, SheetFormat::Modern, vec![set_text(1, 1, 1, "fine"), set_text(1, 2_000_000, 1, "far")]),
        Err(PatchError::OutOfRangeReference)
    );
    let mut s = Session::open(&bytes, SheetFormat::Modern).unwrap();
    s.enqueue(set_text(1, 1, 1, "fine"));
    s.enqueue(set_text(1, 2_000_000, 1, "far"));
    assert_eq!(s.commit(), Err(PatchError::OutOfRangeReference));
    assert_eq!(s.pending(), 2);
    assert_eq!(s.doc.strings.len(), 1);
    assert_eq!(s.doc.rewritten.len(), 0);
    assert_eq!(patch(&bytes, SheetFormat::Legacy, vec![set_text(1, 65_537, 1, "far")]), Err(PatchError::OutOfRangeReference));
    assert!(patch(&bytes, SheetFormat::Legacy, vec![set_text(1, 65_536, 256, "edge")]).is_ok());
    assert_eq!(patch(&bytes, SheetFormat::Modern, vec![set_text(1, 1, 16_385, "far")]), Err(PatchError::OutOfRangeReference));
    assert_eq!(patch(&bytes, SheetFormat::Modern, vec![Edit::InsertRow { sheet: 1, row: 0 }]), Err(PatchError::OutOfRangeReference));
}

#[test]
fn an_unknown_sheet_is_refused() {
    let bytes = book();
    assert_eq!(patch(&bytes, SheetFormat::Modern, vec![set_text(9, 1, 1, "x")]), Err(PatchError::UnknownSheet));
    assert_eq!(
        patch(&bytes, SheetFormat::Modern, vec![set_text(1, 2_000_000, 1, "x"), set_text(9, 1, 1, "x")]),
        Err(PatchError::OutOfRangeReference)
    );
    assert_eq!(
        patch(&bytes, SheetFormat::Modern, vec![Edit::RenameSheet { sheet: 7, name: b"x".to_vec() }]),
        Err(PatchError::UnknownSheet)
    );
}

#[test]
fn text_that_is_not_utf8_is_refused() {
    let bytes = book();
    let bad = vec![b'a', 0xff, b'b'];
    let edits = [
        Edit::SetCellValue { cell: cell(1, 1, 1), value: CellValue::Text(bad.clone()) },
        Edit::SetCellValue { cell: cell(1, 1, 1), value: CellValue::Number(bad.clone()) },
        Edit::SetCellFormula { cell: cell(1, 1, 1), formula: bad.clone() },
        Edit::RenameSheet { sheet: 1, name: bad.clone() },
        set_format(1, 1, 1, CellFormat { number_format: bad.clone(), ..plain() }),
    ];
    for edit in edits {
        assert_eq!(patch(&bytes, SheetFormat::Modern, vec![edit]), Err(PatchError::UnsupportedFeature));
    }
    let out = patch(&bytes, SheetFormat::Modern, vec![set_text(1, 1, 1, "gr\u{fc}n \u{1f600}")]).unwrap();
    assert!(text(&out, STRINGS).ends_with("<si><t>gr\u{fc}n \u{1f600}</t></si></sst>"));
}

#[test]
fn the_same_edits_give_the_same_bytes() {
    let bytes = book();
    let edits = || {
        vec![
            set_text(1, 1, 1, "world"),
            set_format(1, 1, 1, bold_red()),
            Edit::InsertRow { sheet: 1, row: 1 },
            set_number(2, 3, 3, "1.5"),
            Edit::RenameSheet { sheet: 2, name: b"Other".to_vec() },
        ]
    };
    let one = patch(&bytes, SheetFormat::Modern, edits()).unwrap();
    let two = patch(&bytes, SheetFormat::Modern, edits()).unwrap();
    assert_eq!(one, two);
    assert_ne!(one, bytes);
}

#[test]
fn unknown_content_survives_an_edit_of_the_sheet() {
    let bytes = book();
    assert!(text(&bytes, SHEET1).contains(SYNTHETIC));
    let out = patch(&bytes, SheetFormat::Modern, vec![set_number(1, 7, 3, "12"), set_text(1, 1, 2, "x"), set_format(1, 1, 1, bold_red())]).unwrap();
    let sheet = text(&out, SHEET1);
    assert!(sheet.contains(SYNTHETIC));
    assert!(sheet.contains("xmlns:v=\"urn:vendor:ext\"><dimension ref=\"A1:B1\"/><sheetViews><sheetView workbookViewId=\"0\"/></sheetViews><sheetData>"));
    assert!(sheet.ends_with("<pageMargins left=\"0.7\" right=\"0.7\" top=\"0.75\" bottom=\"0.75\" header=\"0.3\" footer=\"0.3\"/></worksheet>"));
}

#[test]
fn corrupt_archives_are_refused() {
    let bytes = book();
    assert_eq!(open(&[]).err(), Some(PatchError::CorruptArchive));
    assert_eq!(open(b"not an archive at all, just some text").err(), Some(PatchError::CorruptArchive));
    assert_eq!(open(&bytes[..bytes.len() - 1]).err(), Some(PatchError::CorruptArchive));
    assert_eq!(open(&bytes[..bytes.len() / 2]).err(), Some(PatchError::CorruptArchive));
    let mut broken = bytes.clone();
    let a = open(&bytes).unwrap();
    broken[a.entries[3].header] ^= 0xff;
    assert_eq!(open(&broken).err(), Some(PatchError::CorruptArchive));
    assert_eq!(patch(&broken, SheetFormat::Modern, Vec::new()), Err(PatchError::CorruptArchive));
    let mut damaged = bytes.clone();
    damaged[a.entries[4].data + 3] ^= 0x55;
    assert_eq!(
        patch(&damaged, SheetFormat::Modern, vec![set_text(1, 1, 1, "x")]),
        Err(PatchError::CorruptArchive)
    );
    assert!(patch(&damaged, SheetFormat::Modern, vec![set_text(2, 1, 1, "x")]).is_ok());
}

#[test]
fn an_archive_without_a_workbook_part_is_refused() {
    let mut other = book();
    let a = open(&other).unwrap();
    let e = a.entries[2];
    other[e.header + 46] = b'y';
    assert!(read_directory(&other).is_ok());
    assert_eq!(open(&other).err(), Some(PatchError::CorruptArchive));
    assert_eq!(Session::open(&other, SheetFormat::Modern).err(), Some(PatchError::CorruptArchive));
}

#[test]
fn a_malformed_part_is_refused_when_it_is_touched() {
    let bytes = book();
    let a = open(&bytes).unwrap();
    let bad = wolfxl::write::write(
        &a,
        &vec![Edited { name: SHEET2.as_bytes().to_vec(), bytes: b"<worksheet><sheetData></worksheet>".to_vec() }],
    )
    .unwrap();
    assert_eq!(text(&bad, SHEET2), "<worksheet><sheetData></worksheet>");
    assert_eq!(patch(&bad, SheetFormat::Modern, vec![set_text(2, 1, 1, "x")]), Err(PatchError::MalformedXml));
    assert!(patch(&bad, SheetFormat::Modern, vec![set_number(1, 1, 1, "5")]).is_ok());
}

#[test]
fn edited_parts_are_written_and_the_archive_stays_readable() {
    let bytes = book();
    let a = open(&bytes).unwrap();
    let big: Vec<u8> = (0..20_000u32).flat_map(|i| format!("<r n=\"{}\"/>", i % 97).into_bytes()).collect();
    let edits = vec![
        Edited { name: SHEET2.as_bytes().to_vec(), bytes: big.clone() },
        Edited { name: b"xl/media/blob.bin".to_vec(), bytes: vec![1, 2, 3] },
    ];
    let out = wolfxl::write::write(&a, &edits).unwrap();
    let b = open(&out).unwrap();
    assert_eq!(names(&a), names(&b));
    assert_eq!(b.entry(SHEET2.as_bytes()).unwrap(), big);
    assert_eq!(b.entry(b"xl/media/blob.bin").unwrap(), vec![1, 2, 3]);
    for (i, e) in b.entries.iter().enumerate() {
        assert_eq!(e.method, a.entries[i].method);
        assert!(b.read(i).is_ok());
    }
    let blob = b.entries[8];
    assert_eq!((blob.method, blob.packed, blob.size), (0, 3, 3));
    assert!(b.entries[5].packed < big.len() / 4);
    for name in ["[Content_Types].xml", WORKBOOK, SHEET1, STRINGS, STYLES] {
        assert_eq!(raw(&a, name), raw(&b, name), "{}", name);
    }
    assert_eq!(
        wolfxl::write::write(&a, &vec![Edited { name: b"xl/absent.xml".to_vec(), bytes: Vec::new() }]),
        Err(PatchError::PartNotFound)
    );
}

#[test]
fn renaming_a_sheet_changes_only_its_name() {
    let bytes = book();
    let out = patch(&bytes, SheetFormat::Modern, vec![Edit::RenameSheet { sheet: 2, name: b"Q&A \"2\"".to_vec() }]).unwrap();
    assert_eq!(
        text(&out, WORKBOOK),
        text(&bytes, WORKBOOK).replace("name=\"Data &amp; more\"", "name=\"Q&amp;A &quot;2&quot;\"")
    );
    assert_eq!(text(&out, SHEET1), text(&bytes, SHEET1));
    let doc = Document::load(open(&out).unwrap(), SheetFormat::Modern).unwrap();
    assert_eq!(doc.sheets[1].name, b"Q&amp;A &quot;2&quot;");
}

#[test]
fn inserting_and_deleting_rows_renumbers_what_follows() {
    let bytes = book();
    let filled = patch(&bytes, SheetFormat::Modern, vec![set_number(1, 3, 2, "3"), set_number(1, 4, 1, "4")]).unwrap();
    let rows = "<row r=\"1\" spans=\"1:2\"><c r=\"A1\" t=\"s\"><v>0</v></c><c r=\"B1\"><v>42</v></c></row><row r=\"3\"><c r=\"B3\" t=\"n\"><v>3</v></c></row><row r=\"4\"><c r=\"A4\" t=\"n\"><v>4</v></c></row>";
    assert!(text(&filled, SHEET1).contains(rows));
    let inserted = patch(&filled, SheetFormat::Modern, vec![Edit::InsertRow { sheet: 1, row: 3 }]).unwrap();
    assert_eq!(
        text(&inserted, SHEET1),
        text(&filled, SHEET1).replace("<row r=\"3\"><c r=\"B3\"", "<row r=\"4\"><c r=\"B4\"").replace("<row r=\"4\"><c r=\"A4\"", "<row r=\"5\"><c r=\"A5\"")
    );
    let back = patch(&inserted, SheetFormat::Modern, vec![Edit::DeleteRow { sheet: 1, row: 3 }]).unwrap();
    assert_eq!(text(&back, SHEET1), text(&filled, SHEET1));
    let gone = patch(&filled, SheetFormat::Modern, vec![Edit::DeleteRow { sheet: 1, row: 3 }]).unwrap();
    assert_eq!(
        text(&gone, SHEET1),
        text(&filled, SHEET1).replace("<row r=\"3\"><c r=\"B3\" t=\"n\"><v>3</v></c></row>", "").replace("<row r=\"4\"><c r=\"A4\"", "<row r=\"3\"><c r=\"A3\"")
    );
    let columns = patch(&filled, SheetFormat::Modern, vec![Edit::InsertColumn { sheet: 1, col: 2 }, Edit::DeleteColumn { sheet: 1, col: 1 }]).unwrap();
    assert!(text(&columns, SHEET1).contains("<row r=\"1\" spans=\"1:2\"><c r=\"B1\"><v>42</v></c></row><row r=\"3\"><c r=\"B3\" t=\"n\"><v>3</v></c></row><row r=\"4\"></row>"));
}

#[test]
fn shifts_come_before_the_cell_edits_of_a_call() {
    let bytes = book();
    let out = patch(&bytes, SheetFormat::Modern, vec![set_number(1, 1, 3, "7"), Edit::InsertRow { sheet: 1, row: 1 }]).unwrap();
    assert!(text(&out, SHEET1).contains("<sheetData><row r=\"1\"><c r=\"C1\" t=\"n\"><v>7</v></c></row><row r=\"2\" spans=\"1:2\"><c r=\"A2\" t=\"s\"><v>0</v></c><c r=\"B2\"><v>42</v></c></row></sheetData>"));
    let doc = Document::load(open(&bytes).unwrap(), SheetFormat::Modern).unwrap();
    let p = plan(&doc, &vec![set_number(1, 1, 3, "7"), Edit::InsertRow { sheet: 1, row: 1 }, set_number(2, 1, 1, "1"), Edit::DeleteColumn { sheet: 1, col: 9 }]).unwrap();
    assert_eq!(p.parts.len(), 2);
    assert_eq!(p.parts[0].part, SHEET1.as_bytes());
    assert_eq!(p.parts[0].mutations.len(), 3);
    assert!(matches!(p.parts[0].mutations[0], Mutation::Shift(Shift::InsertRow(1))));
    assert!(matches!(p.parts[0].mutations[1], Mutation::Shift(Shift::DeleteColumn(9))));
    assert!(matches!(p.parts[0].mutations[2], Mutation::SetValue { row: 1, col: 3, content: Content::Number(_) }));
    assert_eq!(p.parts[1].part, SHEET2.as_bytes());
    assert_eq!(p.parts[1].mutations.len(), 1);
}

#[test]
fn the_offending_edit_and_part_can_be_found() {
    let bytes = book();
    let mut s = Session::open(&bytes, SheetFormat::Modern).unwrap();
    assert!(s.intact());
    assert_eq!(s.doc.check_part(SHEET1.as_bytes()), Ok(()));
    assert_eq!(s.doc.check_part(b"xl/media/blob.bin"), Err(PatchError::MalformedXml));
    assert_eq!(s.doc.check_part(b"xl/none.xml"), Err(PatchError::PartNotFound));
    let edits = vec![set_text(1, 1, 1, "ok"), set_text(2, 1, 1, "ok"), set_text(3, 1, 1, "bad"), set_text(1, 0, 1, "bad")];
    assert_eq!(wolfxl::planner::offender(&s.doc, &edits), Some(2));
    assert_eq!(wolfxl::planner::offender(&s.doc, &edits[..2].to_vec()), None);
    assert_eq!(wolfxl::planner::validate(&s.doc, &edits), Err(PatchError::UnknownSheet));
    assert_eq!(wolfxl::planner::validate(&s.doc, &edits[3..].to_vec()), Err(PatchError::OutOfRangeReference));
    let fine = plan(&s.doc, &vec![set_text(1, 1, 1, "ok"), set_text(2, 1, 1, "ok")]).unwrap();
    assert_eq!(wolfxl::applier::failing_part(&s.doc, &fine), None);
    s.doc.rewritten.push(Edited { name: SHEET2.as_bytes().to_vec(), bytes: b"<worksheet>".to_vec() });
    assert_eq!(s.doc.check_part(SHEET2.as_bytes()), Err(PatchError::MalformedXml));
    assert_eq!(wolfxl::applier::failing_part(&s.doc, &fine), Some(1));
    assert_eq!(apply(&mut s.doc, &fine).err(), Some(PatchError::MalformedXml));
    s.doc.archive.start += 1;
    assert!(!s.intact());
}

#[test]
fn a_plan_holds_only_the_parts_that_are_touched() {
    let doc = Document::load(open(&book()).unwrap(), SheetFormat::Modern).unwrap();
    assert_eq!(plan(&doc, &Vec::new()).unwrap().parts.len(), 0);
    let p = plan(&doc, &vec![set_text(2, 1, 1, "hello")]).unwrap();
    assert_eq!(p.parts.len(), 1);
    assert_eq!(p.parts[0].part, SHEET2.as_bytes());
    assert!(matches!(p.parts[0].mutations[0], Mutation::SetValue { row: 1, col: 1, content: Content::SharedString(0) }));
    let p = plan(&doc, &vec![set_text(2, 1, 1, "new"), set_format(1, 1, 1, bold_red()), Edit::RenameSheet { sheet: 1, name: b"S".to_vec() }, set_text(1, 1, 1, "new")]).unwrap();
    let parts: Vec<&[u8]> = p.parts.iter().map(|p| p.part.as_slice()).collect();
    assert_eq!(parts, vec![SHEET1.as_bytes(), SHEET2.as_bytes(), WORKBOOK.as_bytes(), STRINGS.as_bytes(), STYLES.as_bytes()]);
    assert_eq!(p.parts[3].mutations.len(), 1);
    assert!(matches!(&p.parts[3].mutations[0], Mutation::Append { section: Section::Strings, xml } if xml == b"<si><t>new</t></si>"));
    assert_eq!(p.parts[4].mutations.len(), 2);
    assert!(matches!(&p.parts[4].mutations[0], Mutation::Append { section: Section::Fonts, xml } if xml == b"<font><b/><color rgb=\"FFFF0000\"/></font>"));
    assert!(matches!(&p.parts[4].mutations[1], Mutation::Append { section: Section::CellFormats, .. }));
    assert!(matches!(p.parts[0].mutations[0], Mutation::SetStyle { row: 1, col: 1, style: 1 }));
    assert!(matches!(p.parts[0].mutations[1], Mutation::SetValue { row: 1, col: 1, content: Content::SharedString(1) }));
    assert_eq!(doc.strings.len(), 1);
    assert_eq!(doc.styles.len(), 1);
}

#[test]
fn applying_a_plan_returns_the_planned_parts_and_updates_the_document() {
    let mut doc = Document::load(open(&book()).unwrap(), SheetFormat::Modern).unwrap();
    let p = plan(&doc, &vec![set_text(1, 1, 1, "world"), set_number(2, 2, 2, "8")]).unwrap();
    let out = apply(&mut doc, &p).unwrap();
    let parts: Vec<&[u8]> = out.iter().map(|p| p.name.as_slice()).collect();
    assert_eq!(parts, vec![SHEET1.as_bytes(), SHEET2.as_bytes(), STRINGS.as_bytes()]);
    assert!(String::from_utf8(out[1].bytes.clone()).unwrap().contains("<sheetData><row r=\"2\"><c r=\"B2\" t=\"n\"><v>8</v></c></row></sheetData>"));
    assert_eq!(doc.strings.len(), 2);
    assert_eq!(doc.rewritten.len(), 3);
    assert_eq!(doc.part_bytes(SHEET2.as_bytes()).unwrap(), out[1].bytes);
    for part in &out {
        assert!(parse(&part.name, &part.bytes).is_ok());
    }
    let bad = plan(&doc, &vec![Edit::InsertRow { sheet: 1, row: 1 }, set_text(2, 1, 1, "again")]).unwrap();
    let before = doc.part_bytes(SHEET1.as_bytes()).unwrap();
    let with_formula = wolfxl::sheet::set_cell(&parse(b"s", &before).unwrap(), 9, 9, &wolfxl::sheet::make_formula_delta(b"A1")).unwrap();
    doc.rewritten[0].bytes = with_formula.clone();
    assert_eq!(apply(&mut doc, &bad).err(), Some(PatchError::UnsupportedFeature));
    assert_eq!(doc.strings.len(), 2);
    assert_eq!(doc.rewritten.len(), 3);
    assert_eq!(doc.part_bytes(SHEET1.as_bytes()).unwrap(), with_formula);
}

#[test]
fn a_session_builds_on_what_it_committed() {
    let bytes = book();
    let mut s = Session::open(&bytes, SheetFormat::Modern).unwrap();
    s.enqueue(set_text(1, 1, 1, "world"));
    assert_eq!(s.pending(), 1);
    let first = s.commit().unwrap();
    assert_eq!(s.pending(), 0);
    s.enqueue(set_text(1, 2, 1, "world"));
    s.enqueue(set_text(1, 2, 2, "third"));
    let second = s.commit().unwrap();
    assert!(text(&first, STRINGS).contains("uniqueCount=\"2\""));
    assert!(text(&second, STRINGS).ends_with("uniqueCount=\"3\"><si><t>hello</t></si><si><t>world</t></si><si><t>third</t></si></sst>"));
    assert!(text(&second, SHEET1).contains("<c r=\"A1\" t=\"s\"><v>1</v></c><c r=\"B1\"><v>42</v></c></row><row r=\"2\"><c r=\"A2\" t=\"s\"><v>1</v></c><c r=\"B2\" t=\"s\"><v>2</v></c></row>"));
    let at_once = patch(&bytes, SheetFormat::Modern, vec![set_text(1, 1, 1, "world"), set_text(1, 2, 1, "world"), set_text(1, 2, 2, "third")]).unwrap();
    assert_eq!(second, at_once);
    let again = patch(&first, SheetFormat::Modern, vec![set_text(1, 2, 1, "world"), set_text(1, 2, 2, "third")]).unwrap();
    assert_eq!(text(&again, SHEET1), text(&second, SHEET1));
    assert_eq!(text(&again, STRINGS), text(&second, STRINGS));
}

#[test]
fn edits_of_one_cell_combine_and_the_last_of_a_kind_wins() {
    let bytes = book();
    let out = patch(
        &bytes,
        SheetFormat::Modern,
        vec![
            set_number(1, 1, 2, "1"),
            set_format(1, 1, 2, bold_red()),
            Edit::SetCellFormula { cell: cell(1, 1, 2), formula: b"A1&\"!\"".to_vec() },
            set_number(1, 1, 2, "2"),
            Edit::SetCellValue { cell: cell(1, 1, 2), value: CellValue::Bool(false) },
        ],
    )
    .unwrap();
    assert!(text(&out, SHEET1).contains("<c r=\"B1\" t=\"b\" s=\"1\"><f>A1&amp;&quot;!&quot;</f><v>0</v></c>"));
}

#[test]
fn a_new_number_format_is_declared_and_a_built_in_one_is_not() {
    let bytes = book();
    let custom = CellFormat { number_format: b"0.000\" kg\"".to_vec(), alignment: Alignment { horizontal: HorizontalAlignment::Center, wrap: true }, ..plain() };
    let percent = CellFormat { number_format: b"0.00%".to_vec(), fill: Fill { color: Some(0xFF00FF00) }, border: Border { style: BorderStyle::Thin, color: None }, ..plain() };
    let out = patch(&bytes, SheetFormat::Modern, vec![set_format(1, 1, 1, custom.clone()), set_format(1, 1, 2, percent), set_format(1, 2, 2, custom), set_format(1, 3, 3, plain())]).unwrap();
    let styles = text(&out, STYLES);
    assert!(styles.contains("main\"><numFmts count=\"1\"><numFmt numFmtId=\"164\" formatCode=\"0.000&quot; kg&quot;\"/></numFmts><fonts count=\"1\">"));
    assert!(styles.contains("<fills count=\"3\"><fill><patternFill patternType=\"none\"/></fill><fill><patternFill patternType=\"gray125\"/></fill><fill><patternFill patternType=\"solid\"><fgColor rgb=\"FF00FF00\"/></patternFill></fill></fills>"));
    assert!(styles.contains("<borders count=\"2\"><border><left/><right/><top/><bottom/><diagonal/></border><border><left style=\"thin\"><color auto=\"1\"/></left><right style=\"thin\"><color auto=\"1\"/></right><top style=\"thin\"><color auto=\"1\"/></top><bottom style=\"thin\"><color auto=\"1\"/></bottom><diagonal/></border></borders>"));
    assert!(styles.contains("<cellXfs count=\"3\"><xf numFmtId=\"0\" fontId=\"0\" fillId=\"0\" borderId=\"0\" xfId=\"0\"/><xf numFmtId=\"164\" fontId=\"0\" fillId=\"0\" borderId=\"0\" xfId=\"0\" applyNumberFormat=\"1\" applyAlignment=\"1\"><alignment horizontal=\"center\" wrapText=\"1\"/></xf><xf numFmtId=\"10\" fontId=\"0\" fillId=\"2\" borderId=\"1\" xfId=\"0\" applyNumberFormat=\"1\" applyFill=\"1\" applyBorder=\"1\"/></cellXfs>"));
    let sheet = text(&out, SHEET1);
    assert!(sheet.contains("<c r=\"A1\" t=\"s\" s=\"1\"><v>0</v></c><c r=\"B1\" s=\"2\"><v>42</v></c></row><row r=\"2\"><c r=\"B2\" s=\"1\"/></row><row r=\"3\"><c r=\"C3\" s=\"0\"/></row>"));
    let doc = Document::load(open(&out).unwrap(), SheetFormat::Modern).unwrap();
    assert_eq!(doc.styles.number_formats.len(), 1);
    assert_eq!(doc.styles.number_formats.resolve(164), Ok(b"0.000&quot; kg&quot;".to_vec()));
    assert_eq!(doc.styles.number_formats.resolve(10), Ok(b"0.00%".to_vec()));
    assert_eq!(doc.styles.number_formats.resolve(165), Err(PatchError::InvalidIndex));
    assert_eq!(doc.styles.len(), 3);
}

#[test]
fn a_workbook_without_shared_strings_gets_text_inline() {
    let bytes = bare();
    let doc = Document::load(open(&bytes).unwrap(), SheetFormat::Modern).unwrap();
    assert!(!doc.shared);
    assert_eq!(doc.strings.len(), 0);
    assert_eq!(doc.styles.len(), 0);
    assert_eq!(doc.sheets[0].part, SHEET1.as_bytes());
    assert_eq!(doc.sheet_id(b"Numbers"), Ok(4));
    assert_eq!(patch(&bytes, SheetFormat::Modern, Vec::new()), Ok(bytes.clone()));
    let out = patch(&bytes, SheetFormat::Modern, vec![set_text(4, 1, 1, "a & b"), set_text(4, 1, 2, " x"), set_number(4, 2, 1, "2")]).unwrap();
    assert_eq!(names(&open(&out).unwrap()), names(&open(&bytes).unwrap()));
    assert!(text(&out, SHEET1).ends_with("<sheetData><row r=\"1\"><c r=\"A1\" t=\"inlineStr\"><is><t>a &amp; b</t></is></c><c r=\"B1\" t=\"inlineStr\"><is><t xml:space=\"preserve\"> x</t></is></c></row><row r=\"2\"><c r=\"A2\" t=\"n\"><v>2</v></c></row></sheetData></worksheet>"));
    assert_eq!(&out[out.len() - 15..], b"made for a test");
    let back = patch(&out, SheetFormat::Modern, vec![set_number(4, 1, 1, "1")]).unwrap();
    assert!(text(&back, SHEET1).contains("<c r=\"A1\" t=\"n\"><v>1</v></c><c r=\"B1\" t=\"inlineStr\">"));
    assert_eq!(patch(&bytes, SheetFormat::Modern, vec![set_format(4, 1, 1, bold_red())]), Err(PatchError::PartNotFound));
}

#[test]
fn the_shared_table_of_a_workbook_is_used_when_it_has_one() {
    let doc = Document::load(open(&book()).unwrap(), SheetFormat::Modern).unwrap();
    assert!(doc.shared);
    let p = plan(&doc, &vec![set_text(1, 1, 1, "hello")]).unwrap();
    assert!(matches!(p.parts[0].mutations[0], Mutation::SetValue { content: Content::SharedString(0), .. }));
    let bare = Document::load(open(&bare()).unwrap(), SheetFormat::Modern).unwrap();
    let p = plan(&bare, &vec![set_text(4, 1, 1, "hello")]).unwrap();
    assert_eq!(p.parts.len(), 1);
    assert!(matches!(&p.parts[0].mutations[0], Mutation::SetValue { content: Content::Inline(t), .. } if t == b"hello"));
}
