//! Patch plans: which parts are rewritten, and what is done to each.

use vstd::prelude::*;
use crate::edit::Shift;

verus! {

/// What a cell holds once its value is resolved against the tables.
#[derive(Clone, Debug)]
pub enum Content {
    /// The id of an entry of the shared string table.
    SharedString(usize),
    /// Text that is written into the cell itself, for a workbook that has
    /// no table of shared strings.
    Inline(Vec<u8>),
    /// A number, as its decimal literal.
    Number(Vec<u8>),
    /// A truth value.
    Bool(bool),
}

/// What a resolved value is.
pub enum ContentView {
    SharedString(usize),
    Inline(Seq<u8>),
    Number(Seq<u8>),
    Bool(bool),
}

impl View for Content {
    type V = ContentView;

    open spec fn view(&self) -> ContentView {
        match *self {
            Content::SharedString(id) => ContentView::SharedString(id),
            Content::Inline(t) => ContentView::Inline(t@),
            Content::Number(n) => ContentView::Number(n@),
            Content::Bool(b) => ContentView::Bool(b),
        }
    }
}

/// The lists of a table part that can grow.
#[derive(Clone, Copy, Debug, PartialEq, Eq, Structural)]
pub enum Section {
    Strings,
    NumberFormats,
    Fonts,
    Fills,
    Borders,
    CellFormats,
}

/// One localized change to one part.
#[derive(Clone, Debug)]
pub enum Mutation {
    /// Insert or delete a row or column of a sheet.
    Shift(Shift),
    /// Give a cell a value.
    SetValue { row: u32, col: u32, content: Content },
    /// Give a cell a style.
    SetStyle { row: u32, col: u32, style: usize },
    /// Give a cell a formula.
    SetFormula { row: u32, col: u32, formula: Vec<u8> },
    /// Give a sheet another name, in the workbook part.
    RenameSheet { sheet: u32, name: Vec<u8> },
    /// Append an entry to a list of a table part.
    Append { section: Section, xml: Vec<u8> },
}

/// What a mutation is.
pub enum MutationView {
    Shift(Shift),
    SetValue { row: u32, col: u32, content: ContentView },
    SetStyle { row: u32, col: u32, style: usize },
    SetFormula { row: u32, col: u32, formula: Seq<u8> },
    RenameSheet { sheet: u32, name: Seq<u8> },
    Append { section: Section, xml: Seq<u8> },
}

impl View for Mutation {
    type V = MutationView;

    open spec fn view(&self) -> MutationView {
        match *self {
            Mutation::Shift(s) => MutationView::Shift(s),
            Mutation::SetValue { row, col, content } => MutationView::SetValue {
                row,
                col,
                content: content@,
            },
            Mutation::SetStyle { row, col, style } => MutationView::SetStyle { row, col, style },
            Mutation::SetFormula { row, col, formula } => MutationView::SetFormula {
                row,
                col,
                formula: formula@,
            },
            Mutation::RenameSheet { sheet, name } => MutationView::RenameSheet {
                sheet,
                name: name@,
            },
            Mutation::Append { section, xml } => MutationView::Append { section, xml: xml@ },
        }
    }
}

/// What each mutation of a vector is.
pub open spec fn mutation_views(mutations: Seq<Mutation>) -> Seq<MutationView> {
    Seq::new(mutations.len(), |i: int| mutations[i]@)
}

/// The mutations of one part, in the order they are made.
#[derive(Clone, Debug)]
pub struct PartPlan {
    /// The part's path in the archive.
    pub part: Vec<u8>,
    pub mutations: Vec<Mutation>,
}

/// What the plan of a part is.
pub struct PartPlanView {
    pub part: Seq<u8>,
    pub mutations: Seq<MutationView>,
}

impl View for PartPlan {
    type V = PartPlanView;

    open spec fn view(&self) -> PartPlanView {
        PartPlanView { part: self.part@, mutations: mutation_views(self.mutations@) }
    }
}

/// The parts a patch call rewrites. A part that no edit touches is absent.
#[derive(Clone, Debug)]
pub struct PatchPlan {
    pub parts: Vec<PartPlan>,
}

impl View for PatchPlan {
    type V = Seq<PartPlanView>;

    open spec fn view(&self) -> Seq<PartPlanView> {
        Seq::new(self.parts@.len(), |i: int| self.parts@[i]@)
    }
}

} // verus!
