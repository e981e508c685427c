//! Cell formats: the composite record a style id stands for.

use vstd::prelude::*;

verus! {

/// How the text of a cell is drawn. A colour is `AARRGGBB`.
#[derive(Clone, Copy, Debug, PartialEq, Eq, Structural)]
pub struct Font {
    pub bold: bool,
    pub italic: bool,
    pub color: Option<u32>,
}

/// The background of a cell: a solid colour, or none.
#[derive(Clone, Copy, Debug, PartialEq, Eq, Structural)]
pub struct Fill {
    pub color: Option<u32>,
}

/// The weight of a border line.
#[derive(Clone, Copy, Debug, PartialEq, Eq, Structural)]
pub enum BorderStyle {
    NoLine,
    Thin,
    Medium,
    Thick,
}

/// The line drawn on all four sides of a cell.
#[derive(Clone, Copy, Debug, PartialEq, Eq, Structural)]
pub struct Border {
    pub style: BorderStyle,
    pub color: Option<u32>,
}

/// Where text stands between the left and right edge of a cell.
#[derive(Clone, Copy, Debug, PartialEq, Eq, Structural)]
pub enum HorizontalAlignment {
    General,
    Left,
    Center,
    Right,
}

/// How text is placed in a cell.
#[derive(Clone, Copy, Debug, PartialEq, Eq, Structural)]
pub struct Alignment {
    pub horizontal: HorizontalAlignment,
    pub wrap: bool,
}

/// A cell format: font, fill, border, number format and alignment. Two
/// formats are the same format when all five agree.
#[derive(Clone, Debug)]
pub struct CellFormat {
    pub font: Font,
    pub fill: Fill,
    pub border: Border,
    /// The number format code, such as `0.00`; `General` for none.
    pub number_format: Vec<u8>,
    pub alignment: Alignment,
}

/// What a cell format is.
pub struct CellFormatView {
    pub font: Font,
    pub fill: Fill,
    pub border: Border,
    pub number_format: Seq<u8>,
    pub alignment: Alignment,
}

impl View for CellFormat {
    type V = CellFormatView;

    open spec fn view(&self) -> CellFormatView {
        CellFormatView {
            font: self.font,
            fill: self.fill,
            border: self.border,
            number_format: self.number_format@,
            alignment: self.alignment,
        }
    }
}

} // verus!
