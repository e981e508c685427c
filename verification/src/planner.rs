//! The patch planner.
//!
//! A plan is made in three steps. Every edit is checked first: its sheet
//! must exist and its indices must lie on the grid, and the first edit that
//! fails gives the error of the call. The edits are then resolved in the
//! order given against copies of the shared tables: a text becomes the id
//! of its string, a cell format the id of its style, and what the tables
//! gain on the way is what has to be appended to their parts. Last, the
//! mutations are sorted into parts: each sheet gets its shifts, in order,
//! and behind them its cell edits, in order, so that a cell edit always
//! speaks of the sheet as it is once all rows and columns are in place.
//! Edits of one cell are made one after the other, so the last value, the
//! last style and the last formula stand. A part that no edit touches is
//! not in the plan.

use vstd::prelude::*;
use vstd::utf8::valid_utf8;
use crate::bytes::{copy_of, lit, text_of};
use crate::cellref::SheetFormat;
use crate::document::{sheet_position, Document, DocumentView};
use crate::edit::{edit_views, CellValue, CellValueView, Edit, EditView, Shift};
use crate::error::PatchError;
use crate::numfmt::NumberFormatTable;
use crate::part::is_utf8;
use crate::plan::{
    mutation_views, Content, ContentView, Mutation, MutationView, PartPlan, PartPlanView, PatchPlan,
    Section,
};
use crate::render::{num_fmt_xml, render_num_fmt, render_string, string_xml};
use crate::styles::{style_id, with_style, StyleTable, StyleTableView};
use crate::tables::{inserted, lemma_position, position, rows, SharedStringTable};

verus! {

/// The text an edit carries: a value, a formula, a name or a format code.
pub open spec fn edit_text(e: EditView) -> Seq<u8> {
    match e {
        EditView::SetCellValue { value, .. } => match value {
            CellValueView::Text(t) => t,
            CellValueView::Number(n) => n,
            CellValueView::Bool(_) => Seq::<u8>::empty(),
        },
        EditView::SetCellFormat { format, .. } => format.number_format,
        EditView::SetCellFormula { formula, .. } => formula,
        EditView::RenameSheet { name, .. } => name,
        _ => Seq::<u8>::empty(),
    }
}

/// Why an edit cannot be made, if it cannot: its sheet does not exist, an
/// index it names lies outside the grid, or the text it carries is not
/// UTF-8 and would spoil the part it is written to.
pub open spec fn edit_error(
    sheets: Seq<(u32, Seq<u8>, Seq<u8>)>,
    format: SheetFormat,
    e: EditView,
) -> Option<PatchError> {
    if sheet_position(sheets, e.sheet(), 0) >= sheets.len() {
        Some(PatchError::UnknownSheet)
    } else if !e.in_range(format) {
        Some(PatchError::OutOfRangeReference)
    } else if !valid_utf8(edit_text(e)) {
        Some(PatchError::UnsupportedFeature)
    } else {
        None
    }
}

/// The first position at or after `j` whose edit cannot be made, or the
/// number of edits.
pub open spec fn first_invalid(
    sheets: Seq<(u32, Seq<u8>, Seq<u8>)>,
    format: SheetFormat,
    edits: Seq<EditView>,
    j: int,
) -> int
    decreases edits.len() - j,
{
    if 0 <= j < edits.len() && edit_error(sheets, format, edits[j]) is None {
        first_invalid(sheets, format, edits, j + 1)
    } else {
        j
    }
}

/// A resolved edit: the sheet it is about and the mutation it asks for.
#[derive(Debug)]
pub struct Step {
    pub sheet: u32,
    pub mutation: Mutation,
}

/// What a step is.
pub struct StepView {
    pub sheet: u32,
    pub mutation: MutationView,
}

impl View for Step {
    type V = StepView;

    open spec fn view(&self) -> StepView {
        StepView { sheet: self.sheet, mutation: self.mutation@ }
    }
}

/// What each step of a vector is.
pub open spec fn step_views(steps: Seq<Step>) -> Seq<StepView> {
    Seq::new(steps.len(), |i: int| steps[i]@)
}

/// The tables as the edits resolved so far leave them, and the steps those
/// edits became.
pub struct Resolved {
    pub strings: Seq<Seq<u8>>,
    pub styles: StyleTableView,
    pub steps: Seq<StepView>,
}

/// The content a value becomes, given the table of strings at that time.
/// Text becomes the id of its shared string, or text of the cell's own in
/// a workbook without shared strings.
pub open spec fn content_of(
    strings: Seq<Seq<u8>>,
    shared: bool,
    value: CellValueView,
) -> ContentView {
    match value {
        CellValueView::Text(t) => if shared {
            ContentView::SharedString(position(strings, string_xml(t)) as usize)
        } else {
            ContentView::Inline(t)
        },
        CellValueView::Number(n) => ContentView::Number(n),
        CellValueView::Bool(b) => ContentView::Bool(b),
    }
}

/// The table of strings after a value was resolved.
pub open spec fn strings_with(strings: Seq<Seq<u8>>, shared: bool, value: CellValueView) -> Seq<
    Seq<u8>,
> {
    match value {
        CellValueView::Text(t) => if shared {
            inserted(strings, string_xml(t))
        } else {
            strings
        },
        _ => strings,
    }
}

/// Resolves one more edit.
#[verifier::opaque]
pub open spec fn resolve_step(r: Resolved, shared: bool, e: EditView) -> Result<
    Resolved,
    PatchError,
> {
    match e {
        EditView::SetCellValue { cell, value } => Ok(
            Resolved {
                strings: strings_with(r.strings, shared, value),
                styles: r.styles,
                steps: r.steps.push(
                    StepView {
                        sheet: cell.sheet,
                        mutation: MutationView::SetValue {
                            row: cell.row,
                            col: cell.col,
                            content: content_of(r.strings, shared, value),
                        },
                    },
                ),
            },
        ),
        EditView::SetCellFormat { cell, format } => match style_id(r.styles, format) {
            Err(err) => Err(err),
            Ok(style) => Ok(
                Resolved {
                    strings: r.strings,
                    styles: with_style(r.styles, format),
                    steps: r.steps.push(
                        StepView {
                            sheet: cell.sheet,
                            mutation: MutationView::SetStyle {
                                row: cell.row,
                                col: cell.col,
                                style,
                            },
                        },
                    ),
                },
            ),
        },
        EditView::SetCellFormula { cell, formula } => Ok(
            Resolved {
                strings: r.strings,
                styles: r.styles,
                steps: r.steps.push(
                    StepView {
                        sheet: cell.sheet,
                        mutation: MutationView::SetFormula {
                            row: cell.row,
                            col: cell.col,
                            formula,
                        },
                    },
                ),
            },
        ),
        EditView::RenameSheet { sheet, name } => Ok(
            Resolved {
                strings: r.strings,
                styles: r.styles,
                steps: r.steps.push(
                    StepView { sheet, mutation: MutationView::RenameSheet { sheet, name } },
                ),
            },
        ),
        _ => Ok(
            Resolved {
                strings: r.strings,
                styles: r.styles,
                steps: r.steps.push(
                    StepView {
                        sheet: e.sheet(),
                        mutation: MutationView::Shift(e.shift().unwrap()),
                    },
                ),
            },
        ),
    }
}

/// Resolves the first `k` edits, in order.
pub open spec fn resolved(start: Resolved, shared: bool, edits: Seq<EditView>, k: int) -> Result<
    Resolved,
    PatchError,
>
    decreases k,
{
    if k <= 0 {
        Ok(start)
    } else {
        match resolved(start, shared, edits, k - 1) {
            Err(e) => Err(e),
            Ok(r) => resolve_step(r, shared, edits[k - 1]),
        }
    }
}

/// The kinds of mutation a plan sorts.
#[derive(Clone, Copy, Debug, PartialEq, Eq, Structural)]
pub enum Kind {
    Shift,
    Cell,
    Rename,
}

/// Whether a mutation is of a kind.
pub open spec fn is_kind(m: MutationView, kind: Kind) -> bool {
    match m {
        MutationView::Shift(_) => kind == Kind::Shift,
        MutationView::SetValue { .. } => kind == Kind::Cell,
        MutationView::SetStyle { .. } => kind == Kind::Cell,
        MutationView::SetFormula { .. } => kind == Kind::Cell,
        MutationView::RenameSheet { .. } => kind == Kind::Rename,
        MutationView::Append { .. } => false,
    }
}

/// Whether a step is of a kind and, where a sheet is given, about that
/// sheet.
pub open spec fn wanted(s: StepView, sheet: Option<u32>, kind: Kind) -> bool {
    is_kind(s.mutation, kind) && (match sheet {
        Some(id) => s.sheet == id,
        None => true,
    })
}

/// The mutations of the wanted steps among the first `k`, in order.
pub open spec fn picked(steps: Seq<StepView>, sheet: Option<u32>, kind: Kind, k: int) -> Seq<
    MutationView,
>
    decreases k,
{
    if k <= 0 {
        Seq::<MutationView>::empty()
    } else {
        let before = picked(steps, sheet, kind, k - 1);
        if wanted(steps[k - 1], sheet, kind) {
            before.push(steps[k - 1].mutation)
        } else {
            before
        }
    }
}

/// The mutations of a sheet: its shifts, then its cell edits.
pub open spec fn sheet_mutations(steps: Seq<StepView>, sheet: u32) -> Seq<MutationView> {
    picked(steps, Some(sheet), Kind::Shift, steps.len() as int) + picked(
        steps,
        Some(sheet),
        Kind::Cell,
        steps.len() as int,
    )
}

/// A plan for a part, or none if nothing is done to it.
pub open spec fn part_plan(part: Seq<u8>, mutations: Seq<MutationView>) -> Seq<PartPlanView> {
    if mutations.len() == 0 {
        Seq::<PartPlanView>::empty()
    } else {
        seq![PartPlanView { part, mutations }]
    }
}

/// The plans of the first `k` sheets, in the order of the workbook.
pub open spec fn sheet_plans(
    sheets: Seq<(u32, Seq<u8>, Seq<u8>)>,
    steps: Seq<StepView>,
    k: int,
) -> Seq<PartPlanView>
    decreases k,
{
    if k <= 0 {
        Seq::<PartPlanView>::empty()
    } else {
        let before = sheet_plans(sheets, steps, k - 1);
        if sheet_position(sheets, sheets[k - 1].0, 0) == k - 1 {
            before + part_plan(sheets[k - 1].2, sheet_mutations(steps, sheets[k - 1].0))
        } else {
            before
        }
    }
}

/// The mutations that append entries to a section, in order.
pub open spec fn appended(section: Section, entries: Seq<Seq<u8>>) -> Seq<MutationView> {
    Seq::new(entries.len(), |i: int| MutationView::Append { section, xml: entries[i] })
}

/// The entries that declare number formats.
pub open spec fn declarations(formats: Seq<(u32, Seq<u8>)>) -> Seq<Seq<u8>> {
    Seq::new(formats.len(), |i: int| num_fmt_xml(formats[i].0, formats[i].1))
}

/// What a table holds behind its first `from` entries.
pub open spec fn gained<T>(table: Seq<T>, from: int) -> Seq<T> {
    table.subrange(from, table.len() as int)
}

/// The mutations that append to the style part what the styles gained.
pub open spec fn style_appends(old: StyleTableView, new: StyleTableView) -> Seq<MutationView> {
    appended(
        Section::NumberFormats,
        declarations(gained(new.number_formats, old.number_formats.len() as int)),
    ) + appended(Section::Fonts, gained(new.fonts, old.fonts.len() as int)) + appended(
        Section::Fills,
        gained(new.fills, old.fills.len() as int),
    ) + appended(Section::Borders, gained(new.borders, old.borders.len() as int)) + appended(
        Section::CellFormats,
        gained(new.formats, old.formats.len() as int),
    )
}

/// The plan of a resolved edit set: the sheets that are touched, in the
/// order of the workbook, then the workbook part if a sheet is renamed,
/// the string part if strings were gained, and the style part if styles
/// were.
pub open spec fn laid_plan(d: DocumentView, r: Resolved) -> Seq<PartPlanView> {
    sheet_plans(d.sheets, r.steps, d.sheets.len() as int) + part_plan(
        lit("xl/workbook.xml"),
        picked(r.steps, None, Kind::Rename, r.steps.len() as int),
    ) + part_plan(
        lit("xl/sharedStrings.xml"),
        appended(Section::Strings, gained(r.strings, d.strings.len() as int)),
    ) + part_plan(lit("xl/styles.xml"), style_appends(d.styles, r.styles))
}

/// The plan for an edit set, or the error of the first edit that cannot
/// be made.
pub open spec fn plan_of(d: DocumentView, edits: Seq<EditView>) -> Result<
    Seq<PartPlanView>,
    PatchError,
> {
    let bad = first_invalid(d.sheets, d.format, edits, 0);
    if bad < edits.len() {
        Err(edit_error(d.sheets, d.format, edits[bad]).unwrap())
    } else {
        match resolved(
            Resolved { strings: d.strings, styles: d.styles, steps: Seq::<StepView>::empty() },
            d.shared,
            edits,
            edits.len() as int,
        ) {
            Err(e) => Err(e),
            Ok(r) => Ok(laid_plan(d, r)),
        }
    }
}

/// Checks one edit.
pub fn check_edit(doc: &Document, edit: &Edit) -> (outcome: Result<(), PatchError>)
    ensures
        match outcome {
            Ok(_) => edit_error(doc@.sheets, doc@.format, edit@) is None,
            Err(e) => edit_error(doc@.sheets, doc@.format, edit@) == Some(e),
        },
{
    match doc.sheet_index(edit.sheet()) {
        Err(e) => Err(e),
        Ok(_) => if !edit.in_range(doc.format) {
            Err(PatchError::OutOfRangeReference)
        } else if !text_is_utf8(edit) {
            Err(PatchError::UnsupportedFeature)
        } else {
            Ok(())
        },
    }
}

/// Whether the text an edit carries is UTF-8.
fn text_is_utf8(edit: &Edit) -> (ok: bool)
    ensures
        ok == valid_utf8(edit_text(edit@)),
{
    let none: Vec<u8> = Vec::new();
    match edit {
        Edit::SetCellValue { value, .. } => match value {
            CellValue::Text(t) => is_utf8(t.as_slice()),
            CellValue::Number(n) => is_utf8(n.as_slice()),
            CellValue::Bool(_) => is_utf8(none.as_slice()),
        },
        Edit::SetCellFormat { format, .. } => is_utf8(format.number_format.as_slice()),
        Edit::SetCellFormula { formula, .. } => is_utf8(formula.as_slice()),
        Edit::RenameSheet { name, .. } => is_utf8(name.as_slice()),
        _ => is_utf8(none.as_slice()),
    }
}

/// Checks every edit, in order.
pub fn validate(doc: &Document, edits: &Vec<Edit>) -> (outcome: Result<(), PatchError>)
    ensures
        match outcome {
            Ok(_) => first_invalid(doc@.sheets, doc@.format, edit_views(edits@), 0)
                >= edits@.len(),
            Err(e) => {
                let bad = first_invalid(doc@.sheets, doc@.format, edit_views(edits@), 0);
                bad < edits@.len() && edit_error(
                    doc@.sheets,
                    doc@.format,
                    edit_views(edits@)[bad],
                ) == Some(e)
            },
        },
{
    let ghost views = edit_views(edits@);
    let mut j: usize = 0;
    while j < edits.len()
        invariant
            views == edit_views(edits@),
            j <= edits@.len(),
            first_invalid(doc@.sheets, doc@.format, views, 0) == first_invalid(
                doc@.sheets,
                doc@.format,
                views,
                j as int,
            ),
        decreases edits@.len() - j,
    {
        assert(views[j as int] == edits@[j as int]@);
        match check_edit(doc, &edits[j]) {
            Err(e) => {
                return Err(e);
            },
            Ok(_) => {},
        }
        j += 1;
    }
    Ok(())
}

/// The position of the first edit that cannot be made, for a caller who
/// wants to know which reference to correct.
pub fn offender(doc: &Document, edits: &Vec<Edit>) -> (at: Option<usize>)
    ensures
        match at {
            Some(j) => j == first_invalid(doc@.sheets, doc@.format, edit_views(edits@), 0) && j
                < edits@.len(),
            None => first_invalid(doc@.sheets, doc@.format, edit_views(edits@), 0)
                >= edits@.len(),
        },
{
    let ghost views = edit_views(edits@);
    let mut j: usize = 0;
    while j < edits.len()
        invariant
            views == edit_views(edits@),
            j <= edits@.len(),
            first_invalid(doc@.sheets, doc@.format, views, 0) == first_invalid(
                doc@.sheets,
                doc@.format,
                views,
                j as int,
            ),
        decreases edits@.len() - j,
    {
        assert(views[j as int] == edits@[j as int]@);
        if check_edit(doc, &edits[j]).is_err() {
            return Some(j);
        }
        j += 1;
    }
    None
}

/// A copy of a content.
fn copy_content(c: &Content) -> (copy: Content)
    ensures
        copy@ == c@,
{
    match c {
        Content::SharedString(id) => Content::SharedString(*id),
        Content::Inline(t) => Content::Inline(copy_of(t.as_slice())),
        Content::Number(n) => Content::Number(copy_of(n.as_slice())),
        Content::Bool(b) => Content::Bool(*b),
    }
}

/// A copy of a mutation.
pub fn copy_mutation(m: &Mutation) -> (copy: Mutation)
    ensures
        copy@ == m@,
{
    match m {
        Mutation::Shift(s) => Mutation::Shift(*s),
        Mutation::SetValue { row, col, content } => Mutation::SetValue {
            row: *row,
            col: *col,
            content: copy_content(content),
        },
        Mutation::SetStyle { row, col, style } => Mutation::SetStyle {
            row: *row,
            col: *col,
            style: *style,
        },
        Mutation::SetFormula { row, col, formula } => Mutation::SetFormula {
            row: *row,
            col: *col,
            formula: copy_of(formula.as_slice()),
        },
        Mutation::RenameSheet { sheet, name } => Mutation::RenameSheet {
            sheet: *sheet,
            name: copy_of(name.as_slice()),
        },
        Mutation::Append { section, xml } => Mutation::Append {
            section: *section,
            xml: copy_of(xml.as_slice()),
        },
    }
}

/// Resolves one edit against the tables.
fn resolve(
    strings: &mut SharedStringTable,
    styles: &mut StyleTable,
    shared: bool,
    edit: &Edit,
) -> (outcome: Result<Step, PatchError>)
    ensures
        match resolve_step(
            Resolved {
                strings: old(strings)@,
                styles: old(styles)@,
                steps: Seq::<StepView>::empty(),
            },
            shared,
            edit@,
        ) {
            Ok(r) => outcome matches Ok(step) && r.steps == seq![step@] && final(strings)@
                == r.strings && final(styles)@ == r.styles,
            Err(e) => outcome matches Err(err) && err == e && final(strings)@ == old(strings)@
                && final(styles)@ == old(styles)@,
        },
{
    proof {
        reveal(resolve_step);
    }
    let step = match edit {
        Edit::SetCellValue { cell, value } => {
            let content = match value {
                CellValue::Text(t) => {
                    if shared {
                        let xml = render_string(t.as_slice());
                        Content::SharedString(strings.get_or_insert(xml.as_slice()))
                    } else {
                        Content::Inline(copy_of(t.as_slice()))
                    }
                },
                CellValue::Number(n) => Content::Number(copy_of(n.as_slice())),
                CellValue::Bool(b) => Content::Bool(*b),
            };
            Step {
                sheet: cell.sheet,
                mutation: Mutation::SetValue { row: cell.row, col: cell.col, content },
            }
        },
        Edit::SetCellFormat { cell, format } => {
            match styles.get_or_insert(format) {
                Err(e) => {
                    return Err(e);
                },
                Ok(style) => Step {
                    sheet: cell.sheet,
                    mutation: Mutation::SetStyle { row: cell.row, col: cell.col, style },
                },
            }
        },
        Edit::SetCellFormula { cell, formula } => Step {
            sheet: cell.sheet,
            mutation: Mutation::SetFormula {
                row: cell.row,
                col: cell.col,
                formula: copy_of(formula.as_slice()),
            },
        },
        Edit::RenameSheet { sheet, name } => Step {
            sheet: *sheet,
            mutation: Mutation::RenameSheet { sheet: *sheet, name: copy_of(name.as_slice()) },
        },
        Edit::InsertRow { sheet, row } => Step {
            sheet: *sheet,
            mutation: Mutation::Shift(Shift::InsertRow(*row)),
        },
        Edit::DeleteRow { sheet, row } => Step {
            sheet: *sheet,
            mutation: Mutation::Shift(Shift::DeleteRow(*row)),
        },
        Edit::InsertColumn { sheet, col } => Step {
            sheet: *sheet,
            mutation: Mutation::Shift(Shift::InsertColumn(*col)),
        },
        Edit::DeleteColumn { sheet, col } => Step {
            sheet: *sheet,
            mutation: Mutation::Shift(Shift::DeleteColumn(*col)),
        },
    };
    proof {
        reveal(resolve_step);
        let r = resolve_step(
            Resolved {
                strings: old(strings)@,
                styles: old(styles)@,
                steps: Seq::<StepView>::empty(),
            },
            shared,
            edit@,
        );
        match edit@ {
            EditView::SetCellValue { cell, value } => {
                match value {
                    CellValueView::Text(t) => {
                        lemma_position(old(strings)@, string_xml(t));
                    },
                    _ => {},
                }
            },
            _ => {},
        }
        assert(r.unwrap().steps =~= seq![step@]);
    }
    Ok(step)
}

/// The mutations of the wanted steps, in order.
pub fn pick(steps: &Vec<Step>, sheet: Option<u32>, kind: Kind) -> (out: Vec<Mutation>)
    ensures
        mutation_views(out@) == picked(step_views(steps@), sheet, kind, steps@.len() as int),
{
    let ghost views = step_views(steps@);
    let mut out: Vec<Mutation> = Vec::new();
    let mut k: usize = 0;
    assert(mutation_views(out@) =~= Seq::<MutationView>::empty());
    while k < steps.len()
        invariant
            views == step_views(steps@),
            k <= steps@.len(),
            mutation_views(out@) == picked(views, sheet, kind, k as int),
        decreases steps@.len() - k,
    {
        let s = &steps[k];
        assert(views[k as int] == s@);
        let of_kind = match s.mutation {
            Mutation::Shift(_) => kind == Kind::Shift,
            Mutation::SetValue { .. } => kind == Kind::Cell,
            Mutation::SetStyle { .. } => kind == Kind::Cell,
            Mutation::SetFormula { .. } => kind == Kind::Cell,
            Mutation::RenameSheet { .. } => kind == Kind::Rename,
            Mutation::Append { .. } => false,
        };
        let of_sheet = match sheet {
            Some(id) => s.sheet == id,
            None => true,
        };
        if of_kind && of_sheet {
            let ghost before = mutation_views(out@);
            let m = copy_mutation(&s.mutation);
            out.push(m);
            assert(mutation_views(out@) =~= before.push(m@));
        }
        k += 1;
    }
    out
}

/// Puts a part into the plan if something is done to it.
fn push_part(parts: &mut Vec<PartPlan>, name: Vec<u8>, mutations: Vec<Mutation>)
    ensures
        plan_views(final(parts)@) == plan_views(old(parts)@) + part_plan(
            name@,
            mutation_views(mutations@),
        ),
{
    let ghost before = plan_views(parts@);
    assert(mutation_views(mutations@).len() == mutations@.len());
    if mutations.len() > 0 {
        let p = PartPlan { part: name, mutations };
        parts.push(p);
        assert(plan_views(parts@) =~= before.push(p@));
        assert(plan_views(parts@) =~= before + part_plan(name@, mutation_views(mutations@)));
    } else {
        assert(plan_views(parts@) =~= before + part_plan(name@, mutation_views(mutations@)));
    }
}

/// What each part plan of a vector is.
pub open spec fn plan_views(parts: Seq<PartPlan>) -> Seq<PartPlanView> {
    Seq::new(parts.len(), |i: int| parts[i]@)
}

/// Appends the mutations that append `entries` to a section.
fn push_appends(out: &mut Vec<Mutation>, section: Section, entries: Vec<Vec<u8>>)
    ensures
        mutation_views(final(out)@) == mutation_views(old(out)@) + appended(
            section,
            rows(entries@),
        ),
{
    let ghost start = mutation_views(out@);
    let ghost all = rows(entries@);
    let mut i: usize = 0;
    assert(mutation_views(out@) =~= start + appended(section, all.subrange(0, 0)));
    while i < entries.len()
        invariant
            i <= entries@.len(),
            all == rows(entries@),
            mutation_views(out@) == start + appended(section, all.subrange(0, i as int)),
        decreases entries@.len() - i,
    {
        let ghost before = mutation_views(out@);
        let m = Mutation::Append { section, xml: copy_of(entries[i].as_slice()) };
        out.push(m);
        i += 1;
        assert(mutation_views(out@) =~= before.push(m@));
        assert(mutation_views(out@) =~= start + appended(section, all.subrange(0, i as int)));
    }
    assert(all.subrange(0, all.len() as int) =~= all);
}

/// The entries that declare the number formats from `from` on.
fn new_declarations(table: &NumberFormatTable, from: usize) -> (entries: Vec<Vec<u8>>)
    requires
        from <= table@.len(),
    ensures
        rows(entries@) == declarations(gained(table@, from as int)),
{
    let mut entries: Vec<Vec<u8>> = Vec::new();
    let mut i: usize = from;
    while i < table.len()
        invariant
            from <= i <= table@.len(),
            rows(entries@) == declarations(table@.subrange(from as int, i as int)),
        decreases table@.len() - i,
    {
        let f = table.get(i);
        let ghost before = rows(entries@);
        let xml = render_num_fmt(f.id, f.code.as_slice());
        entries.push(xml);
        i += 1;
        assert(rows(entries@) =~= before.push(xml@));
        assert(rows(entries@) =~= declarations(table@.subrange(from as int, i as int)));
    }
    entries
}

/// Appends the plans of the sheets, in the order of the workbook.
fn push_sheets(parts: &mut Vec<PartPlan>, doc: &Document, steps: &Vec<Step>)
    ensures
        plan_views(final(parts)@) == plan_views(old(parts)@) + sheet_plans(
            doc@.sheets,
            step_views(steps@),
            doc@.sheets.len() as int,
        ),
{
    let ghost start = plan_views(parts@);
    let ghost sheets = doc@.sheets;
    let ghost views = step_views(steps@);
    let mut k: usize = 0;
    assert(plan_views(parts@) =~= start + sheet_plans(sheets, views, 0));
    while k < doc.sheets.len()
        invariant
            sheets == doc@.sheets,
            views == step_views(steps@),
            k <= doc.sheets@.len(),
            plan_views(parts@) == start + sheet_plans(sheets, views, k as int),
        decreases doc.sheets@.len() - k,
    {
        let sheet = &doc.sheets[k];
        assert(sheets[k as int] == (sheet.id, sheet.name@, sheet.part@));
        let first = match doc.sheet_index(sheet.id) {
            Ok(i) => i == k,
            Err(_) => false,
        };
        if first {
            let mut mutations = pick(steps, Some(sheet.id), Kind::Shift);
            let mut cells = pick(steps, Some(sheet.id), Kind::Cell);
            let ghost a = mutation_views(mutations@);
            let ghost b = mutation_views(cells@);
            mutations.append(&mut cells);
            assert(mutation_views(mutations@) =~= a + b);
            let ghost before = plan_views(parts@);
            push_part(parts, copy_of(sheet.part.as_slice()), mutations);
            assert(plan_views(parts@) =~= start + sheet_plans(sheets, views, k + 1));
        }
        k += 1;
    }
}

/// Plans a patch: which parts are rewritten and what is done to each.
/// `UnknownSheet` or `OutOfRangeReference` is returned for the first edit
/// that names a sheet the workbook has not or an index outside the grid.
pub fn plan(doc: &Document, edits: &Vec<Edit>) -> (outcome: Result<PatchPlan, PatchError>)
    ensures
        match outcome {
            Ok(p) => plan_of(doc@, edit_views(edits@)) == Ok::<Seq<PartPlanView>, PatchError>(p@),
            Err(e) => plan_of(doc@, edit_views(edits@)) == Err::<Seq<PartPlanView>, PatchError>(e),
        },
{
    match validate(doc, edits) {
        Err(e) => {
            return Err(e);
        },
        Ok(_) => {},
    }
    let ghost views = edit_views(edits@);
    let ghost start = Resolved {
        strings: doc@.strings,
        styles: doc@.styles,
        steps: Seq::<StepView>::empty(),
    };
    let mut strings = doc.strings.duplicate();
    let mut styles = doc.styles.duplicate();
    let mut steps: Vec<Step> = Vec::new();
    let mut failed: Option<PatchError> = None;
    let mut k: usize = 0;
    assert(step_views(steps@) =~= Seq::<StepView>::empty());
    while k < edits.len()
        invariant
            views == edit_views(edits@),
            k <= edits@.len(),
            doc@.strings.len() <= strings@.len(),
            doc@.styles.number_formats.len() <= styles@.number_formats.len(),
            doc@.styles.fonts.len() <= styles@.fonts.len(),
            doc@.styles.fills.len() <= styles@.fills.len(),
            doc@.styles.borders.len() <= styles@.borders.len(),
            doc@.styles.formats.len() <= styles@.formats.len(),
            resolved(start, doc.shared, views, k as int) == match failed {
                Some(e) => Err::<Resolved, PatchError>(e),
                None => Ok::<Resolved, PatchError>(
                    Resolved {
                        strings: strings@,
                        styles: styles@,
                        steps: step_views(steps@),
                    },
                ),
            },
        decreases edits@.len() - k,
    {
        if failed.is_none() {
            assert(views[k as int] == edits@[k as int]@);
            let ghost before = step_views(steps@);
            let ghost r = Resolved { strings: strings@, styles: styles@, steps: before };
            proof {
                lemma_step_grows(r, doc.shared, views[k as int]);
                lemma_step_local(r, doc.shared, views[k as int]);
            }
            match resolve(&mut strings, &mut styles, doc.shared, &edits[k]) {
                Err(e) => {
                    failed = Some(e);
                },
                Ok(step) => {
                    steps.push(step);
                    assert(step_views(steps@) =~= before.push(step@));
                    assert(before + seq![step@] =~= before.push(step@));
                },
            }
        }
        k += 1;
    }
    match failed {
        Some(e) => {
            return Err(e);
        },
        None => {},
    }
    let mut parts: Vec<PartPlan> = Vec::new();
    assert(plan_views(parts@) =~= Seq::<PartPlanView>::empty());
    push_sheets(&mut parts, doc, &steps);
    push_part(&mut parts, text_of("xl/workbook.xml"), pick(&steps, None, Kind::Rename));
    let mut gained_strings: Vec<Mutation> = Vec::new();
    assert(mutation_views(gained_strings@) =~= Seq::<MutationView>::empty());
    push_appends(&mut gained_strings, Section::Strings, strings.entries_from(doc.strings.len()));
    push_part(&mut parts, text_of("xl/sharedStrings.xml"), gained_strings);
    let mut gained_styles: Vec<Mutation> = Vec::new();
    assert(mutation_views(gained_styles@) =~= Seq::<MutationView>::empty());
    push_appends(
        &mut gained_styles,
        Section::NumberFormats,
        new_declarations(&styles.number_formats, doc.styles.number_formats.len()),
    );
    push_appends(
        &mut gained_styles,
        Section::Fonts,
        styles.fonts.entries_from(doc.styles.fonts.len()),
    );
    push_appends(
        &mut gained_styles,
        Section::Fills,
        styles.fills.entries_from(doc.styles.fills.len()),
    );
    push_appends(
        &mut gained_styles,
        Section::Borders,
        styles.borders.entries_from(doc.styles.borders.len()),
    );
    push_appends(
        &mut gained_styles,
        Section::CellFormats,
        styles.formats.entries_from(doc.styles.formats.len()),
    );
    assert(mutation_views(gained_styles@) =~= style_appends(doc@.styles, styles@));
    push_part(&mut parts, text_of("xl/styles.xml"), gained_styles);
    let p = PatchPlan { parts };
    assert(p@ =~= plan_views(p.parts@));
    Ok(p)
}

/// Sorting keeps the order of the call: the wanted steps of a list
/// followed by another are those of the first followed by those of the
/// second. Of two edits of one cell the later one is therefore made later,
/// and what it sets is what stands.
pub proof fn lemma_picked_in_order(
    a: Seq<StepView>,
    b: Seq<StepView>,
    sheet: Option<u32>,
    kind: Kind,
    k: int,
)
    requires
        0 <= k <= b.len(),
    ensures
        picked(a + b, sheet, kind, a.len() + k) == picked(a, sheet, kind, a.len() as int)
            + picked(b, sheet, kind, k),
    decreases k,
{
    let all = a + b;
    if k == 0 {
        lemma_picked_prefix(all, a, sheet, kind, a.len() as int);
        assert(picked(a, sheet, kind, a.len() as int) + Seq::<MutationView>::empty() =~= picked(
            a,
            sheet,
            kind,
            a.len() as int,
        ));
    } else {
        lemma_picked_in_order(a, b, sheet, kind, k - 1);
        assert(all[a.len() + k - 1] == b[k - 1]);
        let head = picked(a, sheet, kind, a.len() as int);
        let tail = picked(b, sheet, kind, k - 1);
        assert((head + tail).push(b[k - 1].mutation) =~= head + tail.push(b[k - 1].mutation));
    }
}

/// What is picked from the first steps of a list depends on those steps
/// alone.
pub proof fn lemma_picked_prefix(
    a: Seq<StepView>,
    b: Seq<StepView>,
    sheet: Option<u32>,
    kind: Kind,
    k: int,
)
    requires
        0 <= k <= a.len(),
        k <= b.len(),
        forall|i: int| 0 <= i < k ==> a[i] == b[i],
    ensures
        picked(a, sheet, kind, k) == picked(b, sheet, kind, k),
    decreases k,
{
    if k > 0 {
        lemma_picked_prefix(a, b, sheet, kind, k - 1);
    }
}

/// Resolving an edit takes nothing out of the tables.
pub proof fn lemma_step_grows(r: Resolved, shared: bool, e: EditView)
    ensures
        resolve_step(r, shared, e) matches Ok(n) ==> {
            &&& r.strings.len() <= n.strings.len()
            &&& r.styles.number_formats.len() <= n.styles.number_formats.len()
            &&& r.styles.fonts.len() <= n.styles.fonts.len()
            &&& r.styles.fills.len() <= n.styles.fills.len()
            &&& r.styles.borders.len() <= n.styles.borders.len()
            &&& r.styles.formats.len() <= n.styles.formats.len()
        },
{
    reveal(resolve_step);
}

/// The step an edit becomes, and what it does to the tables, do not depend
/// on the steps before it.
pub proof fn lemma_step_local(r: Resolved, shared: bool, e: EditView)
    ensures
        match resolve_step(
            Resolved { strings: r.strings, styles: r.styles, steps: Seq::<StepView>::empty() },
            shared,
            e,
        ) {
            Ok(n) => resolve_step(r, shared, e) matches Ok(m) && m.strings == n.strings
                && m.styles == n.styles && m.steps == r.steps + n.steps,
            Err(err) => resolve_step(r, shared, e) == Err::<Resolved, PatchError>(err),
        },
{
    reveal(resolve_step);
    match resolve_step(
        Resolved { strings: r.strings, styles: r.styles, steps: Seq::<StepView>::empty() },
        shared,
        e,
    ) {
        Ok(n) => {
            let m = resolve_step(r, shared, e).unwrap();
            assert(m.steps =~= r.steps + n.steps);
        },
        Err(err) => {},
    }
}

} // verus!
