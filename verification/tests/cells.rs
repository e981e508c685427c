use wolfxl::bytes::{parse_decimal, push_decimal};
use wolfxl::cellref::{parse_address, parse_column_label, push_address, push_column_label, CellRef, SheetFormat};
use wolfxl::edit::{shift_ref, Shift};
use wolfxl::error::PatchError;
use wolfxl::tables::SharedStringTable;

fn label(col: u32) -> String {
    let mut out = Vec::new();
    push_column_label(&mut out, col);
    String::from_utf8(out).unwrap()
}

fn addr(row: u32, col: u32) -> String {
    let mut out = Vec::new();
    push_address(&mut out, row, col);
    String::from_utf8(out).unwrap()
}

#[test]
fn column_labels_are_bijective_base_26() {
    assert_eq!(label(1), "A");
    assert_eq!(label(26), "Z");
    assert_eq!(label(27), "AA");
    assert_eq!(label(52), "AZ");
    assert_eq!(label(53), "BA");
    assert_eq!(label(702), "ZZ");
    assert_eq!(label(703), "AAA");
    assert_eq!(label(16_384), "XFD");
    assert_eq!(label(0), "");
}

#[test]
fn column_labels_read_back() {
    assert_eq!(parse_column_label(b"A"), Some(1));
    assert_eq!(parse_column_label(b"XFD"), Some(16_384));
    assert_eq!(parse_column_label(b""), None);
    assert_eq!(parse_column_label(b"a"), None);
    assert_eq!(parse_column_label(b"A1"), None);
    assert_eq!(parse_column_label(b"ZZZZZZZZ"), None);
    for col in 1..2000u32 {
        assert_eq!(parse_column_label(label(col).as_bytes()), Some(col));
    }
}

#[test]
fn decimal_numerals_round_trip() {
    let mut out = Vec::new();
    push_decimal(&mut out, 0);
    assert_eq!(out, b"0");
    let mut out = Vec::new();
    push_decimal(&mut out, 1_048_576);
    assert_eq!(out, b"1048576");
    assert_eq!(parse_decimal(b"1048576"), Some(1_048_576));
    assert_eq!(parse_decimal(b"4294967295"), Some(u32::MAX));
    assert_eq!(parse_decimal(b"4294967296"), None);
    assert_eq!(parse_decimal(b"007"), None);
    assert_eq!(parse_decimal(b""), None);
    assert_eq!(parse_decimal(b"12a"), None);
    assert_eq!(parse_decimal(b"0"), Some(0));
}

#[test]
fn addresses_round_trip() {
    assert_eq!(addr(1, 1), "A1");
    assert_eq!(addr(1_048_576, 16_384), "XFD1048576");
    assert_eq!(parse_address(b"A1"), Some((1, 1)));
    assert_eq!(parse_address(b"B12"), Some((12, 2)));
    assert_eq!(parse_address(b"XFD1048576"), Some((1_048_576, 16_384)));
    assert_eq!(parse_address(b"A0"), None);
    assert_eq!(parse_address(b"A01"), None);
    assert_eq!(parse_address(b"1A"), None);
    assert_eq!(parse_address(b"A"), None);
    assert_eq!(parse_address(b"$A$1"), None);
    for row in [1u32, 9, 10, 99, 100, 65_536] {
        for col in [1u32, 26, 27, 256, 702, 703] {
            assert_eq!(parse_address(addr(row, col).as_bytes()), Some((row, col)));
        }
    }
}

#[test]
fn references_are_checked_against_the_grid() {
    let ok = CellRef { sheet: 1, row: 1_048_576, col: 16_384 };
    assert_eq!(ok.check(SheetFormat::Modern), Ok(()));
    assert_eq!(ok.check(SheetFormat::Legacy), Err(PatchError::OutOfRangeReference));
    let far = CellRef { sheet: 1, row: 2_000_000, col: 1 };
    assert_eq!(far.check(SheetFormat::Modern), Err(PatchError::OutOfRangeReference));
    let zero = CellRef { sheet: 1, row: 0, col: 1 };
    assert_eq!(zero.check(SheetFormat::Modern), Err(PatchError::OutOfRangeReference));
    let legacy = CellRef { sheet: 1, row: 65_536, col: 256 };
    assert_eq!(legacy.check(SheetFormat::Legacy), Ok(()));
}

#[test]
fn inserting_a_row_shifts_later_references_by_one() {
    let f = SheetFormat::Modern;
    let at = 5;
    for row in 1..=10u32 {
        let cell = CellRef { sheet: 1, row, col: 3 };
        let moved = shift_ref(cell, Shift::InsertRow(at), f).unwrap();
        if row >= at {
            assert_eq!(moved, CellRef { sheet: 1, row: row + 1, col: 3 });
        } else {
            assert_eq!(moved, cell);
        }
        assert_eq!(shift_ref(moved, Shift::DeleteRow(at), f), Ok(cell));
    }
}

#[test]
fn a_reference_to_a_deleted_line_is_out_of_range() {
    let f = SheetFormat::Modern;
    let cell = CellRef { sheet: 1, row: 5, col: 7 };
    assert_eq!(shift_ref(cell, Shift::DeleteRow(5), f), Err(PatchError::OutOfRangeReference));
    assert_eq!(shift_ref(cell, Shift::DeleteColumn(7), f), Err(PatchError::OutOfRangeReference));
    assert_eq!(shift_ref(cell, Shift::DeleteRow(4), f), Ok(CellRef { sheet: 1, row: 4, col: 7 }));
    assert_eq!(shift_ref(cell, Shift::DeleteRow(6), f), Ok(cell));
    assert_eq!(shift_ref(cell, Shift::DeleteColumn(2), f), Ok(CellRef { sheet: 1, row: 5, col: 6 }));
    assert_eq!(shift_ref(cell, Shift::InsertColumn(7), f), Ok(CellRef { sheet: 1, row: 5, col: 8 }));
}

#[test]
fn the_last_line_cannot_be_shifted_off_the_grid() {
    let last = CellRef { sheet: 1, row: 1_048_576, col: 16_384 };
    assert_eq!(
        shift_ref(last, Shift::InsertRow(1), SheetFormat::Modern),
        Err(PatchError::OutOfRangeReference)
    );
    assert_eq!(
        shift_ref(last, Shift::InsertColumn(1), SheetFormat::Modern),
        Err(PatchError::OutOfRangeReference)
    );
}

#[test]
fn get_or_insert_is_idempotent() {
    let mut table = SharedStringTable::new();
    assert_eq!(table.len(), 0);
    let a = table.get_or_insert(b"hello");
    assert_eq!(a, 0);
    assert_eq!(table.len(), 1);
    let b = table.get_or_insert(b"hello");
    assert_eq!(b, 0);
    assert_eq!(table.len(), 1);
    let c = table.get_or_insert(b"world");
    assert_eq!(c, 1);
    assert_eq!(table.len(), 2);
    assert_eq!(table.get_or_insert(b"hello"), 0);
    assert_eq!(table.find(b"world"), Some(1));
    assert_eq!(table.find(b"absent"), None);
}

#[test]
fn resolve_fails_with_invalid_index_out_of_range() {
    let mut table = SharedStringTable::new();
    table.get_or_insert(b"one");
    assert_eq!(table.resolve(0).map(|v| v.clone()), Ok(b"one".to_vec()));
    assert_eq!(table.resolve(1).map(|v| v.clone()), Err(PatchError::InvalidIndex));
}

#[test]
fn a_loaded_table_keeps_duplicates_and_finds_the_first() {
    let mut table =
        SharedStringTable::from_entries(vec![b"a".to_vec(), b"b".to_vec(), b"a".to_vec()]);
    assert_eq!(table.len(), 3);
    assert_eq!(table.get_or_insert(b"a"), 0);
    assert_eq!(table.get_or_insert(b"b"), 1);
    assert_eq!(table.len(), 3);
    assert_eq!(table.get_or_insert(b"c"), 3);
    assert_eq!(table.entries_from(2), vec![b"a".to_vec(), b"c".to_vec()]);
}
