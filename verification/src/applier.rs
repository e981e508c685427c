//! The patch applier.
//!
//! Each planned part is taken as it currently stands, its mutations are
//! made one after the other, and the bytes that result are returned. A
//! mutation reads the part anew, so that it sees what the mutations before
//! it did. Nothing is stored until every part is done: a call either
//! yields all planned parts or leaves the document as it was.

use vstd::prelude::*;
use crate::bytes::{bytes_eq, copy_of, lit};
use crate::cellref::SheetFormat;
use crate::document::{current, parsed, Document, DocumentView};
use crate::error::PatchError;
use crate::lists::{append_entry, append_plan, list_entries, read_list};
use crate::part::{nodes_of, parse, well_formed, Node, Part};
use crate::plan::{mutation_views, Mutation, MutationView, PartPlanView, PatchPlan, Section};
use crate::sheet::{
    cell_splices, formula_delta, make_formula_delta, make_style_delta, make_value_delta, set_cell,
    style_delta, value_delta,
};
use crate::shift::{shift_lines, shift_plan};
use crate::splice::{bytes_of, made};
use crate::styles::{loaded_styles, StyleTable, StyleTableView};
use crate::tables::SharedStringTable;
use crate::workbook::{rename_plan, rename_sheet};
use crate::write::{edit_position, edited_views, Edited};

verus! {

/// What a mutation makes of a part.
pub open spec fn mutated(
    src: Seq<u8>,
    nodes: Seq<Node>,
    m: MutationView,
    format: SheetFormat,
) -> Result<Seq<u8>, PatchError> {
    match m {
        MutationView::Shift(shift) => made(src, shift_plan(src, nodes, shift, format)),
        MutationView::SetValue { row, col, content } => made(
            src,
            cell_splices(src, nodes, row, col, value_delta(content)),
        ),
        MutationView::SetStyle { row, col, style } => made(
            src,
            cell_splices(src, nodes, row, col, style_delta(style)),
        ),
        MutationView::SetFormula { row, col, formula } => made(
            src,
            cell_splices(src, nodes, row, col, formula_delta(formula)),
        ),
        MutationView::RenameSheet { sheet, name } => made(
            src,
            rename_plan(src, nodes, sheet, name),
        ),
        MutationView::Append { section, xml } => made(src, append_plan(src, nodes, section, xml)),
    }
}

/// What one more mutation makes of the bytes of a part: `MalformedXml` if
/// they cannot be read.
pub open spec fn part_step(bytes: Seq<u8>, m: MutationView, format: SheetFormat) -> Result<
    Seq<u8>,
    PatchError,
> {
    if well_formed(bytes) {
        mutated(bytes, nodes_of(bytes), m, format)
    } else {
        Err(PatchError::MalformedXml)
    }
}

/// The bytes of a part after the first `k` mutations.
pub open spec fn part_after(
    bytes: Seq<u8>,
    mutations: Seq<MutationView>,
    format: SheetFormat,
    k: int,
) -> Result<Seq<u8>, PatchError>
    decreases k,
{
    if k <= 0 {
        Ok(bytes)
    } else {
        match part_after(bytes, mutations, format, k - 1) {
            Err(e) => Err(e),
            Ok(b) => part_step(b, mutations[k - 1], format),
        }
    }
}

/// What the plan makes of one part: the part as it stands, with the
/// plan's mutations made.
pub open spec fn part_output(d: DocumentView, p: PartPlanView) -> Result<Seq<u8>, PatchError> {
    match current(d, p.part) {
        Err(e) => Err(e),
        Ok(bytes) => part_after(bytes, p.mutations, d.format, p.mutations.len() as int),
    }
}

/// The new bytes of the first `k` planned parts, each with its name.
pub open spec fn outputs(d: DocumentView, plan: Seq<PartPlanView>, k: int) -> Result<
    Seq<(Seq<u8>, Seq<u8>)>,
    PatchError,
>
    decreases k,
{
    if k <= 0 {
        Ok(Seq::<(Seq<u8>, Seq<u8>)>::empty())
    } else {
        match outputs(d, plan, k - 1) {
            Err(e) => Err(e),
            Ok(done) => match part_output(d, plan[k - 1]) {
                Err(e) => Err(e),
                Ok(bytes) => Ok(done.push((plan[k - 1].part, bytes))),
            },
        }
    }
}

/// A list of parts with one part put in: in place of the part of that
/// name, or behind the others.
pub open spec fn put(list: Seq<(Seq<u8>, Seq<u8>)>, name: Seq<u8>, bytes: Seq<u8>) -> Seq<
    (Seq<u8>, Seq<u8>),
> {
    let at = edit_position(list, name, 0);
    if at < list.len() {
        list.update(at, (name, bytes))
    } else {
        list.push((name, bytes))
    }
}

/// A list of parts with the first `k` of `more` put in.
pub open spec fn merged(
    list: Seq<(Seq<u8>, Seq<u8>)>,
    more: Seq<(Seq<u8>, Seq<u8>)>,
    k: int,
) -> Seq<(Seq<u8>, Seq<u8>)>
    decreases k,
{
    if k <= 0 {
        list
    } else {
        put(merged(list, more, k - 1), more[k - 1].0, more[k - 1].1)
    }
}

/// The strings of the document once the parts are rewritten: those of the
/// new string part, if there is one.
pub open spec fn strings_then(d: DocumentView, out: Seq<(Seq<u8>, Seq<u8>)>) -> Result<
    Seq<Seq<u8>>,
    PatchError,
> {
    let at = edit_position(out, lit("xl/sharedStrings.xml"), 0);
    if at >= out.len() {
        Ok(d.strings)
    } else {
        match parsed(Ok(out[at].1)) {
            Err(e) => Err(e),
            Ok(p) => match list_entries(p.src, p.nodes, lit("sst"), 0) {
                Some(list) => Ok(list),
                None => Err(PatchError::UnsupportedFeature),
            },
        }
    }
}

/// The styles of the document once the parts are rewritten: those of the
/// new style part, if there is one.
pub open spec fn styles_then(d: DocumentView, out: Seq<(Seq<u8>, Seq<u8>)>) -> Result<
    StyleTableView,
    PatchError,
> {
    let at = edit_position(out, lit("xl/styles.xml"), 0);
    if at >= out.len() {
        Ok(d.styles)
    } else {
        match parsed(Ok(out[at].1)) {
            Err(e) => Err(e),
            Ok(p) => loaded_styles(p.src, p.nodes),
        }
    }
}

/// What applying a plan gives: the new bytes of every planned part, and
/// the document with those parts in place and its tables read from them.
pub open spec fn applied(d: DocumentView, plan: Seq<PartPlanView>) -> Result<
    (Seq<(Seq<u8>, Seq<u8>)>, DocumentView),
    PatchError,
> {
    match outputs(d, plan, plan.len() as int) {
        Err(e) => Err(e),
        Ok(out) => match strings_then(d, out) {
            Err(e) => Err(e),
            Ok(strings) => match styles_then(d, out) {
                Err(e) => Err(e),
                Ok(styles) => Ok(
                    (
                        out,
                        DocumentView {
                            src: d.src,
                            tail: d.tail,
                            start: d.start,
                            entries: d.entries,
                            format: d.format,
                            sheets: d.sheets,
                            shared: d.shared,
                            strings,
                            styles,
                            rewritten: merged(d.rewritten, out, out.len() as int),
                        },
                    ),
                ),
            },
        },
    }
}

/// Makes one mutation on a part and returns the part's new bytes.
pub fn apply_mutation(part: &Part, m: &Mutation, format: SheetFormat) -> (outcome: Result<
    Vec<u8>,
    PatchError,
>)
    requires
        part.wf(),
    ensures
        bytes_of(outcome) == mutated(part.src@, part.nodes@, m@, format),
{
    match m {
        Mutation::Shift(shift) => shift_lines(part, *shift, format),
        Mutation::SetValue { row, col, content } => {
            let delta = make_value_delta(content);
            set_cell(part, *row, *col, &delta)
        },
        Mutation::SetStyle { row, col, style } => {
            let delta = make_style_delta(*style);
            set_cell(part, *row, *col, &delta)
        },
        Mutation::SetFormula { row, col, formula } => {
            let delta = make_formula_delta(formula.as_slice());
            set_cell(part, *row, *col, &delta)
        },
        Mutation::RenameSheet { sheet, name } => rename_sheet(part, *sheet, name.as_slice()),
        Mutation::Append { section, xml } => append_entry(part, *section, xml.as_slice()),
    }
}

/// Makes the mutations of a part, in order, and returns its new bytes.
pub fn apply_part(
    name: &[u8],
    bytes: Vec<u8>,
    mutations: &Vec<Mutation>,
    format: SheetFormat,
) -> (outcome:
    Result<Vec<u8>, PatchError>)
    ensures
        bytes_of(outcome) == part_after(
            bytes@,
            mutation_views(mutations@),
            format,
            mutations@.len() as int,
        ),
{
    let ghost start = bytes@;
    let ghost views = mutation_views(mutations@);
    let mut state: Result<Vec<u8>, PatchError> = Ok(bytes);
    let mut k: usize = 0;
    while k < mutations.len()
        invariant
            views == mutation_views(mutations@),
            k <= mutations@.len(),
            bytes_of(state) == part_after(start, views, format, k as int),
        decreases mutations@.len() - k,
    {
        assert(views[k as int] == mutations@[k as int]@);
        state = match state {
            Err(e) => Err(e),
            Ok(b) => match parse(name, b.as_slice()) {
                Err(e) => Err(e),
                Ok(part) => apply_mutation(&part, &mutations[k], format),
            },
        };
        k += 1;
    }
    state
}

/// The index of the first part called `name`.
fn find_part(list: &Vec<Edited>, name: &[u8]) -> (at: usize)
    ensures
        at == edit_position(edited_views(list@), name@, 0),
        at <= list@.len(),
{
    let mut i: usize = 0;
    while i < list.len()
        invariant
            i <= list@.len(),
            edit_position(edited_views(list@), name@, 0) == edit_position(
                edited_views(list@),
                name@,
                i as int,
            ),
        decreases list@.len() - i,
    {
        if bytes_eq(list[i].name.as_slice(), name) {
            return i;
        }
        i += 1;
    }
    i
}

/// A copy of a list of parts.
fn copy_parts(list: &Vec<Edited>) -> (copy: Vec<Edited>)
    ensures
        edited_views(copy@) == edited_views(list@),
{
    let mut copy: Vec<Edited> = Vec::new();
    let mut i: usize = 0;
    while i < list.len()
        invariant
            i <= list@.len(),
            edited_views(copy@) == edited_views(list@).subrange(0, i as int),
        decreases list@.len() - i,
    {
        let e = &list[i];
        let ghost before = edited_views(copy@);
        copy.push(Edited { name: copy_of(e.name.as_slice()), bytes: copy_of(e.bytes.as_slice()) });
        i += 1;
        assert(edited_views(copy@) =~= before.push((e.name@, e.bytes@)));
        assert(edited_views(copy@) =~= edited_views(list@).subrange(0, i as int));
    }
    assert(edited_views(list@).subrange(0, list@.len() as int) =~= edited_views(list@));
    copy
}

/// Puts parts into a list of parts.
fn merge(list: &Vec<Edited>, more: &Vec<Edited>) -> (all: Vec<Edited>)
    ensures
        edited_views(all@) == merged(
            edited_views(list@),
            edited_views(more@),
            more@.len() as int,
        ),
{
    let ghost base = edited_views(list@);
    let ghost views = edited_views(more@);
    let mut all = copy_parts(list);
    let mut k: usize = 0;
    while k < more.len()
        invariant
            views == edited_views(more@),
            k <= more@.len(),
            edited_views(all@) == merged(base, views, k as int),
        decreases more@.len() - k,
    {
        let e = &more[k];
        assert(views[k as int] == (e.name@, e.bytes@));
        let ghost before = edited_views(all@);
        let at = find_part(&all, e.name.as_slice());
        let part = Edited { name: copy_of(e.name.as_slice()), bytes: copy_of(e.bytes.as_slice()) };
        if at < all.len() {
            all.set(at, part);
            assert(edited_views(all@) =~= before.update(at as int, (e.name@, e.bytes@)));
        } else {
            all.push(part);
            assert(edited_views(all@) =~= before.push((e.name@, e.bytes@)));
        }
        k += 1;
    }
    all
}

/// Makes the mutations of every planned part.
fn rewrite(doc: &Document, plan: &PatchPlan) -> (outcome: Result<Vec<Edited>, PatchError>)
    requires
        doc.wf(),
    ensures
        match outcome {
            Ok(out) => outputs(doc@, plan@, plan@.len() as int) == Ok::<
                Seq<(Seq<u8>, Seq<u8>)>,
                PatchError,
            >(edited_views(out@)),
            Err(e) => outputs(doc@, plan@, plan@.len() as int) == Err::<
                Seq<(Seq<u8>, Seq<u8>)>,
                PatchError,
            >(e),
        },
{
    let ghost views = plan@;
    let mut out: Vec<Edited> = Vec::new();
    let mut failed: Option<PatchError> = None;
    let mut k: usize = 0;
    assert(edited_views(out@) =~= Seq::<(Seq<u8>, Seq<u8>)>::empty());
    while k < plan.parts.len()
        invariant
            doc.wf(),
            views == plan@,
            k <= plan.parts@.len(),
            outputs(doc@, views, k as int) == match failed {
                Some(e) => Err::<Seq<(Seq<u8>, Seq<u8>)>, PatchError>(e),
                None => Ok::<Seq<(Seq<u8>, Seq<u8>)>, PatchError>(edited_views(out@)),
            },
        decreases plan.parts@.len() - k,
    {
        if failed.is_none() {
            let p = &plan.parts[k];
            assert(views[k as int] == p@);
            let done = match doc.part_bytes(p.part.as_slice()) {
                Err(e) => Err(e),
                Ok(bytes) => apply_part(p.part.as_slice(), bytes, &p.mutations, doc.format),
            };
            match done {
                Err(e) => {
                    failed = Some(e);
                },
                Ok(bytes) => {
                    let ghost before = edited_views(out@);
                    out.push(Edited { name: copy_of(p.part.as_slice()), bytes });
                    assert(edited_views(out@) =~= before.push((p.part@, bytes@)));
                },
            }
        }
        k += 1;
    }
    match failed {
        Some(e) => Err(e),
        None => Ok(out),
    }
}

/// The first position at or after `k` whose planned part cannot be
/// rewritten, or the number of planned parts.
pub open spec fn first_failing(d: DocumentView, plan: Seq<PartPlanView>, k: int) -> int
    decreases plan.len() - k,
{
    if 0 <= k < plan.len() && part_output(d, plan[k]) is Ok {
        first_failing(d, plan, k + 1)
    } else {
        k
    }
}

/// The position of the first planned part that cannot be rewritten, for a
/// caller who wants to name the part that made a patch call fail.
pub fn failing_part(doc: &Document, plan: &PatchPlan) -> (at: Option<usize>)
    requires
        doc.wf(),
    ensures
        match at {
            Some(k) => k == first_failing(doc@, plan@, 0) && k < plan@.len(),
            None => first_failing(doc@, plan@, 0) >= plan@.len(),
        },
{
    let ghost views = plan@;
    let mut k: usize = 0;
    while k < plan.parts.len()
        invariant
            doc.wf(),
            views == plan@,
            k <= plan.parts@.len(),
            first_failing(doc@, views, 0) == first_failing(doc@, views, k as int),
        decreases plan.parts@.len() - k,
    {
        let p = &plan.parts[k];
        assert(views[k as int] == p@);
        let done = match doc.part_bytes(p.part.as_slice()) {
            Err(e) => Err(e),
            Ok(bytes) => apply_part(p.part.as_slice(), bytes, &p.mutations, doc.format),
        };
        if done.is_err() {
            return Some(k);
        }
        k += 1;
    }
    None
}

/// Reads the strings of the document from its new string part.
fn reload_strings(doc: &Document, out: &Vec<Edited>) -> (outcome: Result<
    Option<SharedStringTable>,
    PatchError,
>)
    ensures
        match outcome {
            Ok(Some(t)) => strings_then(doc@, edited_views(out@)) == Ok::<
                Seq<Seq<u8>>,
                PatchError,
            >(t@),
            Ok(None) => strings_then(doc@, edited_views(out@)) == Ok::<
                Seq<Seq<u8>>,
                PatchError,
            >(doc@.strings),
            Err(e) => strings_then(doc@, edited_views(out@)) == Err::<
                Seq<Seq<u8>>,
                PatchError,
            >(e),
        },
{
    let name = "xl/sharedStrings.xml";
    let at = find_part(out, name.as_bytes());
    if at >= out.len() {
        return Ok(None);
    }
    assert(edited_views(out@)[at as int].1 == out@[at as int].bytes@);
    match parse(name.as_bytes(), out[at].bytes.as_slice()) {
        Err(e) => Err(e),
        Ok(part) => match read_list(&part, Section::Strings) {
            Some(entries) => Ok(Some(SharedStringTable::from_entries(entries))),
            None => Err(PatchError::UnsupportedFeature),
        },
    }
}

/// Reads the styles of the document from its new style part.
fn reload_styles(doc: &Document, out: &Vec<Edited>) -> (outcome: Result<
    Option<StyleTable>,
    PatchError,
>)
    ensures
        match outcome {
            Ok(Some(t)) => styles_then(doc@, edited_views(out@)) == Ok::<
                StyleTableView,
                PatchError,
            >(t@),
            Ok(None) => styles_then(doc@, edited_views(out@)) == Ok::<
                StyleTableView,
                PatchError,
            >(doc@.styles),
            Err(e) => styles_then(doc@, edited_views(out@)) == Err::<
                StyleTableView,
                PatchError,
            >(e),
        },
{
    let name = "xl/styles.xml";
    let at = find_part(out, name.as_bytes());
    if at >= out.len() {
        return Ok(None);
    }
    assert(edited_views(out@)[at as int].1 == out@[at as int].bytes@);
    match parse(name.as_bytes(), out[at].bytes.as_slice()) {
        Err(e) => Err(e),
        Ok(part) => match StyleTable::load(&part) {
            Ok(t) => Ok(Some(t)),
            Err(e) => Err(e),
        },
    }
}

/// What a plan makes of a document, before it is stored: the new bytes of
/// every planned part, the tables read from them, and the list of all
/// parts rewritten so far.
pub struct Prepared {
    pub out: Vec<Edited>,
    /// The new table of strings, if the string part was rewritten.
    pub strings: Option<SharedStringTable>,
    /// The new table of styles, if the style part was rewritten.
    pub styles: Option<StyleTable>,
    pub rewritten: Vec<Edited>,
}

impl Prepared {
    /// The document with what was prepared in place.
    pub open spec fn after(self, d: DocumentView) -> DocumentView {
        DocumentView {
            src: d.src,
            tail: d.tail,
            start: d.start,
            entries: d.entries,
            format: d.format,
            sheets: d.sheets,
            shared: d.shared,
            strings: match self.strings {
                Some(t) => t@,
                None => d.strings,
            },
            styles: match self.styles {
                Some(t) => t@,
                None => d.styles,
            },
            rewritten: edited_views(self.rewritten@),
        }
    }
}

/// Makes the mutations of every planned part without storing anything.
pub fn prepare(doc: &Document, plan: &PatchPlan) -> (outcome: Result<Prepared, PatchError>)
    requires
        doc.wf(),
    ensures
        match outcome {
            Ok(p) => applied(doc@, plan@) == Ok::<
                (Seq<(Seq<u8>, Seq<u8>)>, DocumentView),
                PatchError,
            >((edited_views(p.out@), p.after(doc@))),
            Err(e) => applied(doc@, plan@) == Err::<
                (Seq<(Seq<u8>, Seq<u8>)>, DocumentView),
                PatchError,
            >(e),
        },
{
    let out = match rewrite(doc, plan) {
        Ok(out) => out,
        Err(e) => {
            return Err(e);
        },
    };
    let strings = match reload_strings(doc, &out) {
        Ok(s) => s,
        Err(e) => {
            return Err(e);
        },
    };
    let styles = match reload_styles(doc, &out) {
        Ok(s) => s,
        Err(e) => {
            return Err(e);
        },
    };
    let rewritten = merge(&doc.rewritten, &out);
    Ok(Prepared { out, strings, styles, rewritten })
}

/// Stores what was prepared in the document and returns the new bytes of
/// the planned parts.
pub fn install(doc: &mut Document, prepared: Prepared) -> (out: Vec<Edited>)
    ensures
        final(doc).archive == old(doc).archive,
        final(doc)@ == prepared.after(old(doc)@),
        out == prepared.out,
{
    let Prepared { out, strings, styles, rewritten } = prepared;
    match strings {
        Some(t) => {
            doc.strings = t;
        },
        None => {},
    }
    match styles {
        Some(t) => {
            doc.styles = t;
        },
        None => {},
    }
    doc.rewritten = rewritten;
    out
}

/// Applies a plan: makes the mutations of every planned part and returns
/// the new bytes of each, in the order of the plan. The document then
/// holds the new parts, and tables read from them. If any part fails, the
/// error is returned and the document is as it was.
pub fn apply(doc: &mut Document, plan: &PatchPlan) -> (outcome: Result<Vec<Edited>, PatchError>)
    requires
        old(doc).wf(),
    ensures
        final(doc).wf(),
        final(doc).archive == old(doc).archive,
        match outcome {
            Ok(out) => applied(old(doc)@, plan@) == Ok::<
                (Seq<(Seq<u8>, Seq<u8>)>, DocumentView),
                PatchError,
            >((edited_views(out@), final(doc)@)),
            Err(e) => applied(old(doc)@, plan@) == Err::<
                (Seq<(Seq<u8>, Seq<u8>)>, DocumentView),
                PatchError,
            >(e) && final(doc)@ == old(doc)@,
        },
{
    match prepare(doc, plan) {
        Err(e) => Err(e),
        Ok(prepared) => Ok(install(doc, prepared)),
    }
}

} // verus!
