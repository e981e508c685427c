//! The edits a caller can ask for, and how inserting or deleting a row or
//! column moves the references around it.

use vstd::prelude::*;
use crate::cellref::{CellRef, SheetFormat};
use crate::error::PatchError;
use crate::style::{CellFormat, CellFormatView};

verus! {

/// What a cell is set to.
#[derive(Clone, Debug)]
pub enum CellValue {
    /// Text, as UTF-8.
    Text(Vec<u8>),
    /// A number, as its decimal literal.
    Number(Vec<u8>),
    /// A truth value.
    Bool(bool),
}

/// What a cell value is.
pub enum CellValueView {
    Text(Seq<u8>),
    Number(Seq<u8>),
    Bool(bool),
}

impl View for CellValue {
    type V = CellValueView;

    open spec fn view(&self) -> CellValueView {
        match *self {
            CellValue::Text(t) => CellValueView::Text(t@),
            CellValue::Number(n) => CellValueView::Number(n@),
            CellValue::Bool(b) => CellValueView::Bool(b),
        }
    }
}

/// An insertion or deletion of one row or column of a sheet.
#[derive(Clone, Copy, Debug, PartialEq, Eq, Structural)]
pub enum Shift {
    InsertRow(u32),
    DeleteRow(u32),
    InsertColumn(u32),
    DeleteColumn(u32),
}

/// One requested change to a workbook.
#[derive(Clone, Debug)]
pub enum Edit {
    SetCellValue { cell: CellRef, value: CellValue },
    SetCellFormat { cell: CellRef, format: CellFormat },
    SetCellFormula { cell: CellRef, formula: Vec<u8> },
    InsertRow { sheet: u32, row: u32 },
    DeleteRow { sheet: u32, row: u32 },
    InsertColumn { sheet: u32, col: u32 },
    DeleteColumn { sheet: u32, col: u32 },
    RenameSheet { sheet: u32, name: Vec<u8> },
}

/// What an edit is.
pub enum EditView {
    SetCellValue { cell: CellRef, value: CellValueView },
    SetCellFormat { cell: CellRef, format: CellFormatView },
    SetCellFormula { cell: CellRef, formula: Seq<u8> },
    InsertRow { sheet: u32, row: u32 },
    DeleteRow { sheet: u32, row: u32 },
    InsertColumn { sheet: u32, col: u32 },
    DeleteColumn { sheet: u32, col: u32 },
    RenameSheet { sheet: u32, name: Seq<u8> },
}

impl View for Edit {
    type V = EditView;

    open spec fn view(&self) -> EditView {
        match *self {
            Edit::SetCellValue { cell, value } => EditView::SetCellValue { cell, value: value@ },
            Edit::SetCellFormat { cell, format } => EditView::SetCellFormat {
                cell,
                format: format@,
            },
            Edit::SetCellFormula { cell, formula } => EditView::SetCellFormula {
                cell,
                formula: formula@,
            },
            Edit::InsertRow { sheet, row } => EditView::InsertRow { sheet, row },
            Edit::DeleteRow { sheet, row } => EditView::DeleteRow { sheet, row },
            Edit::InsertColumn { sheet, col } => EditView::InsertColumn { sheet, col },
            Edit::DeleteColumn { sheet, col } => EditView::DeleteColumn { sheet, col },
            Edit::RenameSheet { sheet, name } => EditView::RenameSheet { sheet, name: name@ },
        }
    }
}

/// What each edit of a vector is.
pub open spec fn edit_views(edits: Seq<Edit>) -> Seq<EditView> {
    Seq::new(edits.len(), |i: int| edits[i]@)
}

impl EditView {
    /// The sheet the edit is about.
    pub open spec fn sheet(self) -> u32 {
        match self {
            EditView::SetCellValue { cell, .. } => cell.sheet,
            EditView::SetCellFormat { cell, .. } => cell.sheet,
            EditView::SetCellFormula { cell, .. } => cell.sheet,
            EditView::InsertRow { sheet, .. } => sheet,
            EditView::DeleteRow { sheet, .. } => sheet,
            EditView::InsertColumn { sheet, .. } => sheet,
            EditView::DeleteColumn { sheet, .. } => sheet,
            EditView::RenameSheet { sheet, .. } => sheet,
        }
    }

    /// The shift the edit asks for, if it is one.
    pub open spec fn shift(self) -> Option<Shift> {
        match self {
            EditView::InsertRow { row, .. } => Some(Shift::InsertRow(row)),
            EditView::DeleteRow { row, .. } => Some(Shift::DeleteRow(row)),
            EditView::InsertColumn { col, .. } => Some(Shift::InsertColumn(col)),
            EditView::DeleteColumn { col, .. } => Some(Shift::DeleteColumn(col)),
            _ => None,
        }
    }

    /// The cell the edit writes to, if it writes to one.
    pub open spec fn cell(self) -> Option<CellRef> {
        match self {
            EditView::SetCellValue { cell, .. } => Some(cell),
            EditView::SetCellFormat { cell, .. } => Some(cell),
            EditView::SetCellFormula { cell, .. } => Some(cell),
            _ => None,
        }
    }

    /// Whether every index the edit names lies on the grid of `format`.
    pub open spec fn in_range(self, format: SheetFormat) -> bool {
        match self {
            EditView::SetCellValue { cell, .. } => cell.in_range(format),
            EditView::SetCellFormat { cell, .. } => cell.in_range(format),
            EditView::SetCellFormula { cell, .. } => cell.in_range(format),
            EditView::InsertRow { row, .. } => 1 <= row <= format.spec_max_row(),
            EditView::DeleteRow { row, .. } => 1 <= row <= format.spec_max_row(),
            EditView::InsertColumn { col, .. } => 1 <= col <= format.spec_max_col(),
            EditView::DeleteColumn { col, .. } => 1 <= col <= format.spec_max_col(),
            EditView::RenameSheet { .. } => true,
        }
    }
}

impl Edit {
    /// The sheet the edit is about.
    pub fn sheet(&self) -> (id: u32)
        ensures
            id == self@.sheet(),
    {
        match self {
            Edit::SetCellValue { cell, .. } => cell.sheet,
            Edit::SetCellFormat { cell, .. } => cell.sheet,
            Edit::SetCellFormula { cell, .. } => cell.sheet,
            Edit::InsertRow { sheet, .. } => *sheet,
            Edit::DeleteRow { sheet, .. } => *sheet,
            Edit::InsertColumn { sheet, .. } => *sheet,
            Edit::DeleteColumn { sheet, .. } => *sheet,
            Edit::RenameSheet { sheet, .. } => *sheet,
        }
    }

    /// The shift the edit asks for, if it is one.
    pub fn shift(&self) -> (shift: Option<Shift>)
        ensures
            shift == self@.shift(),
    {
        match self {
            Edit::InsertRow { row, .. } => Some(Shift::InsertRow(*row)),
            Edit::DeleteRow { row, .. } => Some(Shift::DeleteRow(*row)),
            Edit::InsertColumn { col, .. } => Some(Shift::InsertColumn(*col)),
            Edit::DeleteColumn { col, .. } => Some(Shift::DeleteColumn(*col)),
            _ => None,
        }
    }

    /// Whether every index the edit names lies on the grid of `format`.
    pub fn in_range(&self, format: SheetFormat) -> (ok: bool)
        ensures
            ok == self@.in_range(format),
    {
        match self {
            Edit::SetCellValue { cell, .. } => cell.check(format).is_ok(),
            Edit::SetCellFormat { cell, .. } => cell.check(format).is_ok(),
            Edit::SetCellFormula { cell, .. } => cell.check(format).is_ok(),
            Edit::InsertRow { row, .. } => 1 <= *row && *row <= format.max_row(),
            Edit::DeleteRow { row, .. } => 1 <= *row && *row <= format.max_row(),
            Edit::InsertColumn { col, .. } => 1 <= *col && *col <= format.max_col(),
            Edit::DeleteColumn { col, .. } => 1 <= *col && *col <= format.max_col(),
            Edit::RenameSheet { .. } => true,
        }
    }
}

/// Where the line with index `n` stands after a line was inserted at `at`:
/// one further on if it stood at or behind `at`, else where it was. The
/// last line of the grid has nowhere to go.
pub open spec fn after_insert(n: u32, at: u32, limit: u32) -> Result<u32, PatchError> {
    if n < at {
        Ok(n)
    } else if n < limit {
        Ok((n + 1) as u32)
    } else {
        Err(PatchError::OutOfRangeReference)
    }
}

/// Where the line with index `n` stands after line `at` was deleted: one
/// closer if it stood behind `at`, where it was if it stood before, and
/// nowhere if it was the deleted line.
pub open spec fn after_delete(n: u32, at: u32) -> Result<u32, PatchError> {
    if n < at {
        Ok(n)
    } else if n == at {
        Err(PatchError::OutOfRangeReference)
    } else {
        Ok((n - 1) as u32)
    }
}

/// Where a reference points after `shift`, on a sheet of `format`.
pub open spec fn shifted(cell: CellRef, shift: Shift, format: SheetFormat) -> Result<
    CellRef,
    PatchError,
> {
    match shift {
        Shift::InsertRow(at) => match after_insert(cell.row, at, format.spec_max_row() as u32) {
            Ok(row) => Ok(CellRef { sheet: cell.sheet, row, col: cell.col }),
            Err(e) => Err(e),
        },
        Shift::DeleteRow(at) => match after_delete(cell.row, at) {
            Ok(row) => Ok(CellRef { sheet: cell.sheet, row, col: cell.col }),
            Err(e) => Err(e),
        },
        Shift::InsertColumn(at) => match after_insert(
            cell.col,
            at,
            format.spec_max_col() as u32,
        ) {
            Ok(col) => Ok(CellRef { sheet: cell.sheet, row: cell.row, col }),
            Err(e) => Err(e),
        },
        Shift::DeleteColumn(at) => match after_delete(cell.col, at) {
            Ok(col) => Ok(CellRef { sheet: cell.sheet, row: cell.row, col }),
            Err(e) => Err(e),
        },
    }
}

/// Where line `n` stands after a line was inserted at `at`.
pub fn index_after_insert(n: u32, at: u32, limit: u32) -> (moved: Result<u32, PatchError>)
    ensures
        moved == after_insert(n, at, limit),
{
    if n < at {
        Ok(n)
    } else if n < limit {
        Ok(n + 1)
    } else {
        Err(PatchError::OutOfRangeReference)
    }
}

/// Where line `n` stands after line `at` was deleted.
pub fn index_after_delete(n: u32, at: u32) -> (moved: Result<u32, PatchError>)
    ensures
        moved == after_delete(n, at),
{
    if n < at {
        Ok(n)
    } else if n == at {
        Err(PatchError::OutOfRangeReference)
    } else {
        Ok(n - 1)
    }
}

/// Where a reference points after `shift`; `OutOfRangeReference` if it
/// pointed into a deleted line or would leave the grid.
pub fn shift_ref(cell: CellRef, shift: Shift, format: SheetFormat) -> (moved: Result<
    CellRef,
    PatchError,
>)
    ensures
        moved == shifted(cell, shift, format),
{
    match shift {
        Shift::InsertRow(at) => match index_after_insert(cell.row, at, format.max_row()) {
            Ok(row) => Ok(CellRef { sheet: cell.sheet, row, col: cell.col }),
            Err(e) => Err(e),
        },
        Shift::DeleteRow(at) => match index_after_delete(cell.row, at) {
            Ok(row) => Ok(CellRef { sheet: cell.sheet, row, col: cell.col }),
            Err(e) => Err(e),
        },
        Shift::InsertColumn(at) => match index_after_insert(cell.col, at, format.max_col()) {
            Ok(col) => Ok(CellRef { sheet: cell.sheet, row: cell.row, col }),
            Err(e) => Err(e),
        },
        Shift::DeleteColumn(at) => match index_after_delete(cell.col, at) {
            Ok(col) => Ok(CellRef { sheet: cell.sheet, row: cell.row, col }),
            Err(e) => Err(e),
        },
    }
}

/// Inserting a row at `at` moves every reference to a row at or behind
/// `at` down by exactly one and leaves the references before it alone.
/// Deleting row `at` undoes the insertion, and a reference to a deleted
/// row is out of range.
pub proof fn lemma_row_shift(cell: CellRef, at: u32, format: SheetFormat)
    ensures
        cell.row < at ==> shifted(cell, Shift::InsertRow(at), format) == Ok::<
            CellRef,
            PatchError,
        >(cell),
        at <= cell.row < format.spec_max_row() ==> shifted(cell, Shift::InsertRow(at), format)
            == Ok::<CellRef, PatchError>(
            CellRef { sheet: cell.sheet, row: (cell.row + 1) as u32, col: cell.col },
        ),
        shifted(cell, Shift::InsertRow(at), format) matches Ok(moved) ==> shifted(
            moved,
            Shift::DeleteRow(at),
            format,
        ) == Ok::<CellRef, PatchError>(cell),
        cell.row == at ==> shifted(cell, Shift::DeleteRow(at), format) == Err::<
            CellRef,
            PatchError,
        >(PatchError::OutOfRangeReference),
        cell.row < at ==> shifted(cell, Shift::DeleteRow(at), format) == Ok::<
            CellRef,
            PatchError,
        >(cell),
        cell.row > at ==> shifted(cell, Shift::DeleteRow(at), format) == Ok::<
            CellRef,
            PatchError,
        >(CellRef { sheet: cell.sheet, row: (cell.row - 1) as u32, col: cell.col }),
{
}

/// The same for columns: an insertion at `at` moves the references at or
/// behind `at` by exactly one, a deletion undoes it, and a reference to a
/// deleted column is out of range.
pub proof fn lemma_column_shift(cell: CellRef, at: u32, format: SheetFormat)
    ensures
        cell.col < at ==> shifted(cell, Shift::InsertColumn(at), format) == Ok::<
            CellRef,
            PatchError,
        >(cell),
        at <= cell.col < format.spec_max_col() ==> shifted(
            cell,
            Shift::InsertColumn(at),
            format,
        ) == Ok::<CellRef, PatchError>(
            CellRef { sheet: cell.sheet, row: cell.row, col: (cell.col + 1) as u32 },
        ),
        shifted(cell, Shift::InsertColumn(at), format) matches Ok(moved) ==> shifted(
            moved,
            Shift::DeleteColumn(at),
            format,
        ) == Ok::<CellRef, PatchError>(cell),
        cell.col == at ==> shifted(cell, Shift::DeleteColumn(at), format) == Err::<
            CellRef,
            PatchError,
        >(PatchError::OutOfRangeReference),
        cell.col < at ==> shifted(cell, Shift::DeleteColumn(at), format) == Ok::<
            CellRef,
            PatchError,
        >(cell),
        cell.col > at ==> shifted(cell, Shift::DeleteColumn(at), format) == Ok::<
            CellRef,
            PatchError,
        >(CellRef { sheet: cell.sheet, row: cell.row, col: (cell.col - 1) as u32 }),
{
}

} // verus!
