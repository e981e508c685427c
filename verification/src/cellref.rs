//! Cell references and their `A1`-style addresses.
//!
//! A column is written in bijective base 26 (`A` is 1, `Z` is 26, `AA` is
//! 27), a row as a decimal numeral. Writing and reading an address are
//! inverse to each other; the lemmas at the end of this file say so.

use vstd::prelude::*;
use vstd::slice::slice_subrange;
use crate::bytes::{
    decimal, decimal_value, is_decimal, is_digit, lemma_decimal_of_decimal_value,
    lemma_decimal_value_of_decimal, parse_decimal, push_decimal,
};
use crate::error::PatchError;

verus! {

/// The grid limits of a workbook format.
#[derive(Clone, Copy, Debug, PartialEq, Eq, Structural)]
pub enum SheetFormat {
    /// 1,048,576 rows by 16,384 columns.
    Modern,
    /// 65,536 rows by 256 columns.
    Legacy,
}

impl SheetFormat {
    /// The largest row index of the format.
    pub open spec fn spec_max_row(self) -> nat {
        match self {
            SheetFormat::Modern => 1_048_576,
            SheetFormat::Legacy => 65_536,
        }
    }

    /// The largest column index of the format.
    pub open spec fn spec_max_col(self) -> nat {
        match self {
            SheetFormat::Modern => 16_384,
            SheetFormat::Legacy => 256,
        }
    }

    /// The largest row index of the format.
    pub fn max_row(&self) -> (limit: u32)
        ensures
            limit == self.spec_max_row(),
    {
        match self {
            SheetFormat::Modern => 1_048_576,
            SheetFormat::Legacy => 65_536,
        }
    }

    /// The largest column index of the format.
    pub fn max_col(&self) -> (limit: u32)
        ensures
            limit == self.spec_max_col(),
    {
        match self {
            SheetFormat::Modern => 16_384,
            SheetFormat::Legacy => 256,
        }
    }
}

/// A cell of a sheet: rows and columns count from 1.
#[derive(Clone, Copy, Debug, PartialEq, Eq, Structural)]
pub struct CellRef {
    pub sheet: u32,
    pub row: u32,
    pub col: u32,
}

/// Whether a row index lies on the grid of `format`.
pub open spec fn row_in_range(row: int, format: SheetFormat) -> bool {
    1 <= row <= format.spec_max_row()
}

/// Whether a column index lies on the grid of `format`.
pub open spec fn col_in_range(col: int, format: SheetFormat) -> bool {
    1 <= col <= format.spec_max_col()
}

impl CellRef {
    /// Whether the cell lies on the grid of `format`.
    pub open spec fn in_range(self, format: SheetFormat) -> bool {
        row_in_range(self.row as int, format) && col_in_range(self.col as int, format)
    }

    /// Accepts the reference if it lies on the grid of `format`.
    pub fn check(&self, format: SheetFormat) -> (outcome: Result<(), PatchError>)
        ensures
            outcome == if self.in_range(format) {
                Ok::<(), PatchError>(())
            } else {
                Err::<(), PatchError>(PatchError::OutOfRangeReference)
            },
    {
        if 1 <= self.row && self.row <= format.max_row() && 1 <= self.col && self.col
            <= format.max_col() {
            Ok(())
        } else {
            Err(PatchError::OutOfRangeReference)
        }
    }
}

/// A capital letter.
pub open spec fn is_upper(b: u8) -> bool {
    65 <= b <= 90
}

/// Every byte is a capital letter.
pub open spec fn all_upper(s: Seq<u8>) -> bool {
    forall|i: int| 0 <= i < s.len() ==> is_upper(#[trigger] s[i])
}

/// A column label: one or more capital letters.
pub open spec fn is_label(s: Seq<u8>) -> bool {
    s.len() > 0 && all_upper(s)
}

/// The label of column `col`; empty for 0, which is no column.
pub open spec fn column_label(col: nat) -> Seq<u8>
    decreases col,
{
    if col == 0 {
        Seq::<u8>::empty()
    } else {
        column_label(((col - 1) / 26) as nat).push((65 + (col - 1) % 26) as u8)
    }
}

/// The column a label denotes.
pub open spec fn column_index(label: Seq<u8>) -> nat
    decreases label.len(),
{
    if label.len() == 0 {
        0
    } else {
        column_index(label.drop_last()) * 26 + (label.last() - 64) as nat
    }
}

/// The address of the cell in row `row` and column `col`.
pub open spec fn address(row: nat, col: nat) -> Seq<u8> {
    column_label(col) + decimal(row)
}

/// The first position at or after `i` that holds no capital letter.
pub open spec fn letters_end(s: Seq<u8>, i: int) -> int
    decreases s.len() - i,
{
    if 0 <= i < s.len() && is_upper(s[i]) {
        letters_end(s, i + 1)
    } else {
        i
    }
}

/// The row and column an address denotes, if it is one: a label followed
/// by the canonical numeral of a positive row.
pub open spec fn address_parts(s: Seq<u8>) -> Option<(nat, nat)> {
    let k = letters_end(s, 0);
    let label = s.subrange(0, k);
    let digits = s.subrange(k, s.len() as int);
    if k > 0 && is_decimal(digits) && decimal_value(digits) > 0 {
        Some((decimal_value(digits), column_index(label)))
    } else {
        None
    }
}

/// Appends the label of column `col`.
pub fn push_column_label(out: &mut Vec<u8>, col: u32)
    ensures
        final(out)@ == old(out)@ + column_label(col as nat),
    decreases col,
{
    if col > 0 {
        push_column_label(out, (col - 1) / 26);
        let d: u8 = ((col - 1) % 26) as u8;
        out.push(65u8 + d);
    }
    assert(out@ =~= old(out)@ + column_label(col as nat));
}

/// Appends the address of the cell in row `row` and column `col`.
pub fn push_address(out: &mut Vec<u8>, row: u32, col: u32)
    ensures
        final(out)@ == old(out)@ + address(row as nat, col as nat),
{
    push_column_label(out, col);
    push_decimal(out, row as u64);
    assert(out@ =~= old(out)@ + address(row as nat, col as nat));
}

/// A label's index is at least the index of each of its prefixes.
pub proof fn lemma_column_index_prefix(s: Seq<u8>, k: int)
    requires
        all_upper(s),
        0 <= k <= s.len(),
    ensures
        column_index(s.subrange(0, k)) <= column_index(s),
    decreases s.len() - k,
{
    if k == s.len() {
        assert(s.subrange(0, k) =~= s);
    } else {
        lemma_column_index_prefix(s.drop_last(), k);
        assert(s.drop_last().subrange(0, k) =~= s.subrange(0, k));
        assert(is_upper(s[s.len() - 1]));
    }
}

/// Reads a column label whose index fits in 32 bits.
pub fn parse_column_label(s: &[u8]) -> (col: Option<u32>)
    ensures
        col == if is_label(s@) && column_index(s@) <= u32::MAX {
            Some(column_index(s@) as u32)
        } else {
            None::<u32>
        },
{
    let n: usize = s.len();
    if n == 0 {
        return None;
    }
    let mut acc: u64 = 0;
    let mut i: usize = 0;
    while i < n
        invariant
            i <= n,
            n == s@.len(),
            all_upper(s@.subrange(0, i as int)),
            acc == column_index(s@.subrange(0, i as int)),
            acc <= u32::MAX,
        decreases n - i,
    {
        let b: u8 = s[i];
        if b < 65u8 || b > 90u8 {
            assert(!is_upper(s@[i as int]));
            return None;
        }
        let ghost before = s@.subrange(0, i as int);
        let ghost after = s@.subrange(0, i + 1);
        assert(after.drop_last() =~= before);
        assert(after.last() == b);
        assert forall|j: int| 0 <= j < after.len() implies is_upper(#[trigger] after[j]) by {
            if j < i {
                assert(after[j] == before[j]);
            }
        }
        let next: u64 = acc * 26 + (b - 64u8) as u64;
        if next > 0xffff_ffffu64 {
            proof {
                if all_upper(s@) {
                    lemma_column_index_prefix(s@, i + 1);
                }
            }
            return None;
        }
        acc = next;
        i += 1;
    }
    assert(s@.subrange(0, n as int) =~= s@);
    Some(acc as u32)
}

/// The row and column an address denotes, if both fit in 32 bits.
pub open spec fn address_u32(s: Seq<u8>) -> Option<(u32, u32)> {
    match address_parts(s) {
        Some((row, col)) => if row <= u32::MAX && col <= u32::MAX {
            Some((row as u32, col as u32))
        } else {
            None
        },
        None => None,
    }
}

/// Reads an address into its row and column, in that order.
pub fn parse_address(s: &[u8]) -> (cell: Option<(u32, u32)>)
    ensures
        cell == address_u32(s@),
{
    let n: usize = s.len();
    let mut k: usize = 0;
    while k < n && 65u8 <= s[k] && s[k] <= 90u8
        invariant
            k <= n,
            n == s@.len(),
            letters_end(s@, 0) == letters_end(s@, k as int),
        decreases n - k,
    {
        k += 1;
    }
    assert(letters_end(s@, 0) == k);
    if k == 0 {
        return None;
    }
    let label = slice_subrange(s, 0, k);
    let digits = slice_subrange(s, k, n);
    let row = parse_decimal(digits);
    let col = parse_column_label(label);
    match (row, col) {
        (Some(r), Some(c)) => {
            if r == 0 {
                None
            } else {
                Some((r, c))
            }
        },
        (None, _) => {
            None
        },
        (Some(r), None) => {
            proof {
                assert forall|j: int| 0 <= j < label@.len() implies is_upper(
                    #[trigger] label@[j],
                ) by {
                    lemma_letters_before_end(s@, 0, j);
                }
            }
            None
        },
    }
}

/// Every position between `i` and the end of the letters holds a letter.
pub proof fn lemma_letters_before_end(s: Seq<u8>, i: int, j: int)
    requires
        0 <= i <= j < letters_end(s, i),
    ensures
        j < s.len(),
        is_upper(s[j]),
    decreases j - i,
{
    if i < j {
        lemma_letters_before_end(s, i + 1, j);
    }
}

/// Where the letters end in a label followed by a non-letter or nothing.
pub proof fn lemma_letters_end_of_label(s: Seq<u8>, k: int, i: int)
    requires
        0 <= i <= k <= s.len(),
        all_upper(s.subrange(0, k)),
        k < s.len() ==> !is_upper(s[k]),
    ensures
        letters_end(s, i) == k,
    decreases k - i,
{
    if i < k {
        assert(s[i] == s.subrange(0, k)[i]);
        lemma_letters_end_of_label(s, k, i + 1);
    }
}

/// The label of a column denotes that column.
pub proof fn lemma_column_index_of_label(col: nat)
    ensures
        all_upper(column_label(col)),
        col > 0 ==> is_label(column_label(col)),
        column_index(column_label(col)) == col,
    decreases col,
{
    if col > 0 {
        let up = ((col - 1) / 26) as nat;
        lemma_column_index_of_label(up);
        let p = column_label(up);
        let s = column_label(col);
        assert(s.drop_last() =~= p);
        assert forall|i: int| 0 <= i < s.len() implies is_upper(#[trigger] s[i]) by {
            if i < p.len() {
                assert(s[i] == p[i]);
            }
        }
    }
}

/// The index of a label is written as that label.
pub proof fn lemma_column_label_of_index(s: Seq<u8>)
    requires
        all_upper(s),
    ensures
        column_label(column_index(s)) == s,
        s.len() > 0 ==> column_index(s) > 0,
    decreases s.len(),
{
    if s.len() == 0 {
        assert(column_label(0) =~= s);
    } else {
        let p = s.drop_last();
        assert forall|i: int| 0 <= i < p.len() implies is_upper(#[trigger] p[i]) by {
            assert(p[i] == s[i]);
        }
        lemma_column_label_of_index(p);
        assert(is_upper(s[s.len() - 1]));
        let d = (s.last() - 64) as nat;
        let v = column_index(p) * 26 + d;
        assert((v - 1) / 26 == column_index(p) && (v - 1) % 26 == d - 1);
        assert(column_label(v) =~= s);
    }
}

/// Reading the address written for a cell gives its row and column back.
pub proof fn lemma_address_parts_of_address(row: nat, col: nat)
    requires
        row >= 1,
        col >= 1,
    ensures
        address_parts(address(row, col)) == Some((row, col)),
{
    let label = column_label(col);
    let digits = decimal(row);
    let s = address(row, col);
    lemma_column_index_of_label(col);
    lemma_decimal_value_of_decimal(row);
    let k = label.len() as int;
    assert(s.subrange(0, k) =~= label);
    assert(s.subrange(k, s.len() as int) =~= digits);
    assert(s[k] == digits[0]);
    assert(is_digit(digits[0]));
    lemma_letters_end_of_label(s, k, 0);
}

/// Writing the address of what was read from one gives that address back.
pub proof fn lemma_address_of_address_parts(s: Seq<u8>)
    requires
        address_parts(s) is Some,
    ensures
        address(address_parts(s).unwrap().0, address_parts(s).unwrap().1) == s,
{
    let k = letters_end(s, 0);
    lemma_letters_end_bounds(s, 0);
    let label = s.subrange(0, k);
    let digits = s.subrange(k, s.len() as int);
    assert forall|j: int| 0 <= j < label.len() implies is_upper(#[trigger] label[j]) by {
        lemma_letters_before_end(s, 0, j);
    }
    lemma_column_label_of_index(label);
    lemma_decimal_of_decimal_value(digits);
    assert(label + digits =~= s);
}

/// The letters end somewhere between `i` and the end of the string.
pub proof fn lemma_letters_end_bounds(s: Seq<u8>, i: int)
    requires
        0 <= i <= s.len(),
    ensures
        i <= letters_end(s, i) <= s.len(),
    decreases s.len() - i,
{
    if i < s.len() && is_upper(s[i]) {
        lemma_letters_end_bounds(s, i + 1);
    }
}

} // verus!
