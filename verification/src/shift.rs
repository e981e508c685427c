//! Inserting and deleting rows and columns of a sheet part.
//!
//! A shift renumbers: every row and cell behind the line that is inserted
//! or deleted gets its new position written into its attribute `r`, and the
//! elements of a deleted line are taken out. Nothing else is touched. A
//! sheet that holds references the engine does not renumber (formulas,
//! merged cells, validations, conditional formats, hyperlinks) is
//! refused, since a shift would leave them pointing at the wrong cells; so
//! is a sheet with a cell whose address names another row than its own.

use vstd::prelude::*;
use vstd::slice::slice_subrange;
use crate::attrs::{attr_range, find_attr, lemma_attr_range};
use crate::bytes::{bytes_eq, decimal, decimal_u32, lit, parse_decimal, push_decimal};
use crate::cellref::{address, address_u32, parse_address, push_address, CellRef, SheetFormat};
use crate::edit::{shift_ref, shifted, Shift};
use crate::error::PatchError;
use crate::part::{
    lemma_depth_bound, lemma_nodes_ascend, node_fits, tag_name, wf_nodes, Node, Part,
};
use crate::splice::{
    bytes_of, lemma_within_concat, lemma_within_ordered, lemma_within_put, lemma_within_wider,
    made, make, ordered, splice_views, views_of, within, Splice, SpliceView,
};
use crate::tree::{
    close_index, close_of, element_end, element_end_at, find_element, is_child, lemma_child_inside,
    lemma_close, lemma_element_end, lemma_next_element, lemma_sibling, next_element, node_is,
};
use crate::xml::NodeKind;

verus! {

/// Where a row element with number `k` goes: to a new number, or away
/// (`None`) when it is the deleted row.
pub open spec fn row_moved(k: u32, shift: Shift, format: SheetFormat) -> Result<
    Option<u32>,
    PatchError,
> {
    match shift {
        Shift::InsertColumn(_) => Ok(Some(k)),
        Shift::DeleteColumn(_) => Ok(Some(k)),
        _ => match shifted(CellRef { sheet: 0, row: k, col: 1 }, shift, format) {
            Ok(cell) => Ok(Some(cell.row)),
            Err(e) => match shift {
                Shift::DeleteRow(_) => Ok(None),
                _ => Err(e),
            },
        },
    }
}

/// Where a cell element goes: to a new position, or away (`None`) when it
/// stands in the deleted column. A cell of the deleted row keeps its
/// position, since it leaves together with its row.
pub open spec fn cell_moved(row: u32, col: u32, shift: Shift, format: SheetFormat) -> Result<
    Option<(u32, u32)>,
    PatchError,
> {
    match shifted(CellRef { sheet: 0, row, col }, shift, format) {
        Ok(cell) => Ok(Some((cell.row, cell.col))),
        Err(e) => match shift {
            Shift::DeleteRow(_) => Ok(Some((row, col))),
            Shift::DeleteColumn(_) => Ok(None),
            _ => Err(e),
        },
    }
}

/// The splice that takes out the element at node `i`.
pub open spec fn removal(src: Seq<u8>, nodes: Seq<Node>, i: int) -> SpliceView {
    SpliceView {
        start: nodes[i].start as int,
        end: element_end(src, nodes, i),
        text: Seq::<u8>::empty(),
    }
}

/// What a shift does to the cell element at node `i`, in a row with the
/// number `row`: the splice that writes its new address or takes it out,
/// if it moves. A cell whose address cannot be read, or names another row
/// than the one it stands in, is refused.
pub open spec fn cell_shift(
    src: Seq<u8>,
    nodes: Seq<Node>,
    i: int,
    row: u32,
    shift: Shift,
    format: SheetFormat,
) -> Result<Option<SpliceView>, PatchError> {
    match attr_range(src, nodes[i], lit("r")) {
        None => Err(PatchError::UnsupportedFeature),
        Some((a, b)) => match address_u32(src.subrange(a, b)) {
            None => Err(PatchError::UnsupportedFeature),
            Some((r, c)) => if r != row {
                Err(PatchError::UnsupportedFeature)
            } else {
                match cell_moved(r, c, shift, format) {
                    Err(e) => Err(e),
                    Ok(None) => Ok(Some(removal(src, nodes, i))),
                    Ok(Some((r2, c2))) => if r2 == r && c2 == c {
                        Ok(None)
                    } else {
                        let text = address(r2 as nat, c2 as nat);
                        Ok(Some(SpliceView { start: a, end: b, text }))
                    },
                }
            },
        },
    }
}

/// The splices of a shift in the cells of a row: those of the elements
/// `c` at `depth` among the nodes `from..j`, in order.
pub open spec fn cells_shift(
    src: Seq<u8>,
    nodes: Seq<Node>,
    from: int,
    j: int,
    depth: int,
    row: u32,
    shift: Shift,
    format: SheetFormat,
) -> Result<Seq<SpliceView>, PatchError>
    decreases j - from,
{
    if j <= from {
        Ok(Seq::<SpliceView>::empty())
    } else {
        match cells_shift(src, nodes, from, j - 1, depth, row, shift, format) {
            Err(e) => Err(e),
            Ok(s) => if is_child(src, nodes[j - 1], depth, lit("c")) {
                match cell_shift(src, nodes, j - 1, row, shift, format) {
                    Err(e) => Err(e),
                    Ok(None) => Ok(s),
                    Ok(Some(splice)) => Ok(s.push(splice)),
                }
            } else {
                Ok(s)
            },
        }
    }
}

/// The splice that writes the new number of a row, if the row moves.
pub open spec fn row_number(a: int, b: int, k: u32, m: u32) -> Seq<SpliceView> {
    if m == k {
        Seq::<SpliceView>::empty()
    } else {
        seq![SpliceView { start: a, end: b, text: decimal(m as nat) }]
    }
}

/// What a shift does to the row element at node `i`: the row is taken out
/// if it is the deleted row; else its number and the addresses of its
/// cells are brought up to date. A row whose number cannot be read is
/// refused.
pub open spec fn row_shift(
    src: Seq<u8>,
    nodes: Seq<Node>,
    i: int,
    shift: Shift,
    format: SheetFormat,
) -> Result<Seq<SpliceView>, PatchError> {
    let n = nodes[i];
    match attr_range(src, n, lit("r")) {
        None => Err(PatchError::UnsupportedFeature),
        Some((a, b)) => match decimal_u32(src.subrange(a, b)) {
            None => Err(PatchError::UnsupportedFeature),
            Some(k) => match row_moved(k, shift, format) {
                Err(e) => Err(e),
                Ok(None) => Ok(seq![removal(src, nodes, i)]),
                Ok(Some(m)) => if n.kind == NodeKind::Empty {
                    Ok(row_number(a, b, k, m))
                } else {
                    match cells_shift(
                        src,
                        nodes,
                        i + 1,
                        close_of(nodes, i),
                        n.depth + 1,
                        k,
                        shift,
                        format,
                    ) {
                        Err(e) => Err(e),
                        Ok(cells) => Ok(row_number(a, b, k, m) + cells),
                    }
                },
            },
        },
    }
}

/// The splices of a shift in the rows of a sheet: those of the elements
/// `row` at `depth` among the nodes `from..j`, in order.
pub open spec fn rows_shift(
    src: Seq<u8>,
    nodes: Seq<Node>,
    from: int,
    j: int,
    depth: int,
    shift: Shift,
    format: SheetFormat,
) -> Result<Seq<SpliceView>, PatchError>
    decreases j - from,
{
    if j <= from {
        Ok(Seq::<SpliceView>::empty())
    } else {
        match rows_shift(src, nodes, from, j - 1, depth, shift, format) {
            Err(e) => Err(e),
            Ok(s) => if is_child(src, nodes[j - 1], depth, lit("row")) {
                match row_shift(src, nodes, j - 1, shift, format) {
                    Err(e) => Err(e),
                    Ok(more) => Ok(s + more),
                }
            } else {
                Ok(s)
            },
        }
    }
}

/// Whether one of the first `j` nodes starts an element called `name`.
pub open spec fn has_element(src: Seq<u8>, nodes: Seq<Node>, j: int, name: Seq<u8>) -> bool
    decreases j,
{
    if j <= 0 {
        false
    } else {
        has_element(src, nodes, j - 1, name) || (nodes[j - 1].is_element() && tag_name(
            src,
            nodes[j - 1],
        ) == name)
    }
}

/// Whether the part holds cell references that a shift would not renumber.
pub open spec fn holds_references(src: Seq<u8>, nodes: Seq<Node>) -> bool {
    let n = nodes.len() as int;
    ||| has_element(src, nodes, n, lit("f"))
    ||| has_element(src, nodes, n, lit("mergeCell"))
    ||| has_element(src, nodes, n, lit("dataValidation"))
    ||| has_element(src, nodes, n, lit("conditionalFormatting"))
    ||| has_element(src, nodes, n, lit("hyperlink"))
}

/// The splices that insert or delete a row or column of the sheet.
pub open spec fn shift_plan(
    src: Seq<u8>,
    nodes: Seq<Node>,
    shift: Shift,
    format: SheetFormat,
) -> Result<Seq<SpliceView>, PatchError> {
    let sd = next_element(src, nodes, 0, nodes.len() as int, 1, lit("sheetData"));
    if holds_references(src, nodes) || sd >= nodes.len() {
        Err(PatchError::UnsupportedFeature)
    } else if nodes[sd].kind == NodeKind::Empty {
        Ok(Seq::<SpliceView>::empty())
    } else {
        rows_shift(src, nodes, sd + 1, close_of(nodes, sd), nodes[sd].depth + 1, shift, format)
    }
}

/// Where a row element with number `k` goes.
pub fn move_row(k: u32, shift: Shift, format: SheetFormat) -> (moved: Result<
    Option<u32>,
    PatchError,
>)
    ensures
        moved == row_moved(k, shift, format),
{
    match shift {
        Shift::InsertColumn(_) => Ok(Some(k)),
        Shift::DeleteColumn(_) => Ok(Some(k)),
        _ => match shift_ref(CellRef { sheet: 0, row: k, col: 1 }, shift, format) {
            Ok(cell) => Ok(Some(cell.row)),
            Err(e) => match shift {
                Shift::DeleteRow(_) => Ok(None),
                _ => Err(e),
            },
        },
    }
}

/// Where a cell element goes.
pub fn move_cell(row: u32, col: u32, shift: Shift, format: SheetFormat) -> (moved: Result<
    Option<(u32, u32)>,
    PatchError,
>)
    ensures
        moved == cell_moved(row, col, shift, format),
{
    match shift_ref(CellRef { sheet: 0, row, col }, shift, format) {
        Ok(cell) => Ok(Some((cell.row, cell.col))),
        Err(e) => match shift {
            Shift::DeleteRow(_) => Ok(Some((row, col))),
            Shift::DeleteColumn(_) => Ok(None),
            _ => Err(e),
        },
    }
}

/// What a splice, or no splice, or a refusal is.
pub open spec fn splice_of(r: Result<Option<Splice>, PatchError>) -> Result<
    Option<SpliceView>,
    PatchError,
> {
    match r {
        Ok(Some(s)) => Ok(Some(s@)),
        Ok(None) => Ok(None),
        Err(e) => Err(e),
    }
}

/// Names what a shift does to the cell element at node `i`.
pub fn shift_cell(part: &Part, i: usize, row: u32, shift: Shift, format: SheetFormat) -> (outcome:
    Result<Option<Splice>, PatchError>)
    requires
        part.wf(),
        i < part.nodes@.len(),
    ensures
        splice_of(outcome) == cell_shift(part.src@, part.nodes@, i as int, row, shift, format),
{
    let node = part.nodes[i];
    let src = part.src.as_slice();
    assert(node_fits(part.src@, part.nodes@, i as int));
    match find_attr(src, node, "r".as_bytes()) {
        None => Err(PatchError::UnsupportedFeature),
        Some((a, b)) => match parse_address(slice_subrange(src, a, b)) {
            None => Err(PatchError::UnsupportedFeature),
            Some((r, c)) => {
                if r != row {
                    return Err(PatchError::UnsupportedFeature);
                }
                match move_cell(r, c, shift, format) {
                    Err(e) => Err(e),
                    Ok(None) => {
                        let end = element_end_at(part, i);
                        Ok(Some(Splice { start: node.start, end, text: Vec::new() }))
                    },
                    Ok(Some((r2, c2))) => {
                        if r2 == r && c2 == c {
                            Ok(None)
                        } else {
                            let mut text: Vec<u8> = Vec::new();
                            push_address(&mut text, r2, c2);
                            assert(text@ =~= address(r2 as nat, c2 as nat));
                            Ok(Some(Splice { start: a, end: b, text }))
                        }
                    },
                }
            },
        },
    }
}

/// Names the splices of a shift in the cells of a row.
pub fn shift_cells(
    part: &Part,
    from: usize,
    to: usize,
    depth: usize,
    row: u32,
    shift: Shift,
    format: SheetFormat,
) -> (outcome: Result<Vec<Splice>, PatchError>)
    requires
        part.wf(),
        from <= to <= part.nodes@.len(),
    ensures
        views_of(outcome) == cells_shift(
            part.src@,
            part.nodes@,
            from as int,
            to as int,
            depth as int,
            row,
            shift,
            format,
        ),
{
    let mut out: Vec<Splice> = Vec::new();
    assert(splice_views(out@) =~= Seq::<SpliceView>::empty());
    let mut failed: Option<PatchError> = None;
    let mut j: usize = from;
    while j < to
        invariant
            part.wf(),
            from <= j <= to <= part.nodes@.len(),
            cells_shift(
                part.src@,
                part.nodes@,
                from as int,
                j as int,
                depth as int,
                row,
                shift,
                format,
            ) == match failed {
                Some(e) => Err::<Seq<SpliceView>, PatchError>(e),
                None => Ok::<Seq<SpliceView>, PatchError>(splice_views(out@)),
            },
        decreases to - j,
    {
        if failed.is_none() && node_is(part, j, depth, "c".as_bytes()) {
            match shift_cell(part, j, row, shift, format) {
                Err(e) => {
                    failed = Some(e);
                },
                Ok(None) => {},
                Ok(Some(splice)) => {
                    let ghost before = splice_views(out@);
                    let ghost added = splice@;
                    out.push(splice);
                    assert(splice_views(out@) =~= before.push(added));
                },
            }
        }
        j += 1;
    }
    match failed {
        Some(e) => Err(e),
        None => Ok(out),
    }
}

/// Names what a shift does to the row element at node `i`.
pub fn shift_row(part: &Part, i: usize, shift: Shift, format: SheetFormat) -> (outcome: Result<
    Vec<Splice>,
    PatchError,
>)
    requires
        part.wf(),
        i < part.nodes@.len(),
    ensures
        views_of(outcome) == row_shift(part.src@, part.nodes@, i as int, shift, format),
{
    let node = part.nodes[i];
    let src = part.src.as_slice();
    proof {
        assert(node_fits(part.src@, part.nodes@, i as int));
        lemma_depth_bound(part.src@, part.nodes@, i as int);
    }
    let n: usize = part.nodes.len();
    let (a, b) = match find_attr(src, node, "r".as_bytes()) {
        None => {
            return Err(PatchError::UnsupportedFeature);
        },
        Some(range) => range,
    };
    let k = match parse_decimal(slice_subrange(src, a, b)) {
        None => {
            return Err(PatchError::UnsupportedFeature);
        },
        Some(k) => k,
    };
    let mut out: Vec<Splice> = Vec::new();
    assert(splice_views(out@) =~= Seq::<SpliceView>::empty());
    match move_row(k, shift, format) {
        Err(e) => Err(e),
        Ok(None) => {
            let end = element_end_at(part, i);
            let splice = Splice { start: node.start, end, text: Vec::new() };
            out.push(splice);
            assert(splice_views(out@) =~= seq![splice@]);
            Ok(out)
        },
        Ok(Some(m)) => {
            if m != k {
                let mut text: Vec<u8> = Vec::new();
                push_decimal(&mut text, m as u64);
                assert(text@ =~= decimal(m as nat));
                let splice = Splice { start: a, end: b, text };
                out.push(splice);
                assert(splice_views(out@) =~= seq![splice@]);
            }
            let ghost head = splice_views(out@);
            assert(head == row_number(a as int, b as int, k, m));
            match node.kind {
                NodeKind::Empty => Ok(out),
                _ => {
                    let to = close_index(part, i);
                    match shift_cells(part, i + 1, to, node.depth + 1, k, shift, format) {
                        Err(e) => Err(e),
                        Ok(cells) => {
                            let mut cells = cells;
                            let ghost tail = splice_views(cells@);
                            out.append(&mut cells);
                            assert(splice_views(out@) =~= head + tail);
                            Ok(out)
                        },
                    }
                },
            }
        },
    }
}

/// Whether the part has an element called `name`.
pub fn contains_element(part: &Part, name: &str) -> (found: bool)
    requires
        part.wf(),
    ensures
        found == has_element(part.src@, part.nodes@, part.nodes@.len() as int, lit(name)),
{
    let mut found: bool = false;
    let mut j: usize = 0;
    while j < part.nodes.len()
        invariant
            part.wf(),
            j <= part.nodes@.len(),
            found == has_element(part.src@, part.nodes@, j as int, lit(name)),
        decreases part.nodes@.len() - j,
    {
        let node = part.nodes[j];
        assert(node_fits(part.src@, part.nodes@, j as int));
        match node.kind {
            NodeKind::Open | NodeKind::Empty => {
                if bytes_eq(
                    slice_subrange(part.src.as_slice(), node.start + 1, node.name_end),
                    name.as_bytes(),
                ) {
                    found = true;
                }
            },
            _ => {},
        }
        j += 1;
    }
    found
}

/// Names the splices that insert or delete a row or column of the sheet.
pub fn plan_shift(part: &Part, shift: Shift, format: SheetFormat) -> (outcome: Result<
    Vec<Splice>,
    PatchError,
>)
    requires
        part.wf(),
    ensures
        views_of(outcome) == shift_plan(part.src@, part.nodes@, shift, format),
{
    let n: usize = part.nodes.len();
    let sd = find_element(part, 0, n, 1, "sheetData");
    if contains_element(part, "f") || contains_element(part, "mergeCell") || contains_element(
        part,
        "dataValidation",
    ) || contains_element(part, "conditionalFormatting") || contains_element(part, "hyperlink")
        || sd >= n {
        return Err(PatchError::UnsupportedFeature);
    }
    let data = part.nodes[sd];
    proof {
        assert(node_fits(part.src@, part.nodes@, sd as int));
        lemma_depth_bound(part.src@, part.nodes@, sd as int);
    }
    let mut out: Vec<Splice> = Vec::new();
    assert(splice_views(out@) =~= Seq::<SpliceView>::empty());
    match data.kind {
        NodeKind::Empty => {
            return Ok(out);
        },
        _ => {},
    }
    let to = close_index(part, sd);
    let from: usize = sd + 1;
    let depth: usize = data.depth + 1;
    let mut failed: Option<PatchError> = None;
    let mut j: usize = from;
    while j < to
        invariant
            part.wf(),
            from <= j <= to <= part.nodes@.len(),
            rows_shift(
                part.src@,
                part.nodes@,
                from as int,
                j as int,
                depth as int,
                shift,
                format,
            ) == match failed {
                Some(e) => Err::<Seq<SpliceView>, PatchError>(e),
                None => Ok::<Seq<SpliceView>, PatchError>(splice_views(out@)),
            },
        decreases to - j,
    {
        if failed.is_none() && node_is(part, j, depth, "row".as_bytes()) {
            match shift_row(part, j, shift, format) {
                Err(e) => {
                    failed = Some(e);
                },
                Ok(more) => {
                    let mut more = more;
                    let ghost before = splice_views(out@);
                    let ghost added = splice_views(more@);
                    out.append(&mut more);
                    assert(splice_views(out@) =~= before + added);
                },
            }
        }
        j += 1;
    }
    match failed {
        Some(e) => Err(e),
        None => Ok(out),
    }
}

/// The splice of a shift in a cell lies inside the cell.
pub proof fn lemma_cell_shift(
    src: Seq<u8>,
    nodes: Seq<Node>,
    i: int,
    row: u32,
    shift: Shift,
    format: SheetFormat,
)
    requires
        wf_nodes(src, nodes),
        0 <= i < nodes.len(),
        nodes[i].is_element(),
    ensures
        cell_shift(src, nodes, i, row, shift, format) matches Ok(Some(x)) ==> nodes[i].start
            <= x.start <= x.end <= element_end(src, nodes, i),
{
    lemma_element_end(src, nodes, i);
    lemma_attr_range(src, nodes, i, lit("r"));
}

/// Splices that all end before a place lie before it.
pub proof fn lemma_within_before(s: Seq<SpliceView>, lo: int, hi: int, mid: int)
    requires
        within(s, lo, hi),
        forall|k: int| 0 <= k < s.len() ==> (#[trigger] s[k]).end <= mid,
    ensures
        within(s, lo, mid),
{
}

/// The splices of a shift in the cells of a row lie inside the row, in
/// order, and before every cell that is yet to come.
pub proof fn lemma_cells_shift(
    src: Seq<u8>,
    nodes: Seq<Node>,
    p: int,
    j: int,
    row: u32,
    shift: Shift,
    format: SheetFormat,
)
    requires
        wf_nodes(src, nodes),
        0 <= p < nodes.len(),
        nodes[p].kind == NodeKind::Open,
        p + 1 <= j <= close_of(nodes, p),
    ensures
        cells_shift(src, nodes, p + 1, j, nodes[p].depth + 1, row, shift, format) matches Ok(
            s,
        ) ==> {
            &&& within(s, nodes[p].end as int, nodes[close_of(nodes, p) - 1].end as int)
            &&& forall|m: int, k: int|
                j <= m < close_of(nodes, p) && nodes[m].is_element() && nodes[m].depth
                    == nodes[p].depth + 1 && 0 <= k < s.len() ==> (#[trigger] s[k]).end <= (
                #[trigger] nodes[m]).start
        },
    decreases j - p,
{
    let e = close_of(nodes, p);
    let d = nodes[p].depth + 1;
    lemma_close(src, nodes, p);
    if j > p + 1 {
        lemma_cells_shift(src, nodes, p, j - 1, row, shift, format);
        match cells_shift(src, nodes, p + 1, j - 1, d, row, shift, format) {
            Err(_) => {},
            Ok(before) => {
                match cells_shift(src, nodes, p + 1, j, d, row, shift, format) {
                    Err(_) => {},
                    Ok(s) => {
                        let n = nodes[j - 1];
                        if is_child(src, n, d, lit("c")) {
                            match cell_shift(src, nodes, j - 1, row, shift, format) {
                                Ok(Some(x)) => {
                                    lemma_cell_shift(src, nodes, j - 1, row, shift, format);
                                    lemma_child_inside(src, nodes, p, j - 1);
                                    assert forall|k: int| 0 <= k < before.len() implies (
                                    #[trigger] before[k]).end <= x.start by {
                                        assert(before[k].end <= nodes[j - 1].start);
                                    }
                                    lemma_within_put(
                                        before,
                                        nodes[p].end as int,
                                        nodes[e - 1].end as int,
                                        x,
                                    );
                                    assert(s == before.push(x));
                                    assert forall|m: int, k: int|
                                        j <= m < e && nodes[m].is_element() && nodes[m].depth
                                            == d && 0 <= k < s.len() implies (
                                    #[trigger] s[k]).end <= (#[trigger] nodes[m]).start by {
                                        if k < before.len() {
                                            assert(s[k] == before[k]);
                                        } else {
                                            lemma_sibling(src, nodes, j - 1, m);
                                        }
                                    }
                                },
                                _ => {
                                    assert(s == before);
                                },
                            }
                        } else {
                            assert(s == before);
                        }
                    },
                }
            },
        }
    }
}

/// The splices of a shift in a row lie inside the row, in order.
pub proof fn lemma_row_splices(
    src: Seq<u8>,
    nodes: Seq<Node>,
    i: int,
    shift: Shift,
    format: SheetFormat,
)
    requires
        wf_nodes(src, nodes),
        0 <= i < nodes.len(),
        nodes[i].is_element(),
    ensures
        row_shift(src, nodes, i, shift, format) matches Ok(s) ==> within(
            s,
            nodes[i].start as int,
            element_end(src, nodes, i),
        ),
{
    let n = nodes[i];
    lemma_element_end(src, nodes, i);
    lemma_attr_range(src, nodes, i, lit("r"));
    match attr_range(src, n, lit("r")) {
        None => {},
        Some((a, b)) => match decimal_u32(src.subrange(a, b)) {
            None => {},
            Some(k) => match row_moved(k, shift, format) {
                Err(_) => {},
                Ok(None) => {},
                Ok(Some(m)) => {
                    let head = row_number(a, b, k, m);
                    assert(within(head, n.start as int, n.end as int));
                    if n.kind != NodeKind::Empty {
                        let e = close_of(nodes, i);
                        lemma_close(src, nodes, i);
                        if i < e - 1 {
                            lemma_nodes_ascend(src, nodes, i, e - 1);
                        }
                        lemma_cells_shift(src, nodes, i, e, k, shift, format);
                        match cells_shift(src, nodes, i + 1, e, n.depth + 1, k, shift, format) {
                            Err(_) => {},
                            Ok(cells) => {
                                lemma_within_concat(
                                    head,
                                    cells,
                                    n.start as int,
                                    n.end as int,
                                    nodes[e - 1].end as int,
                                );
                                lemma_within_wider(
                                    head + cells,
                                    n.start as int,
                                    nodes[e - 1].end as int,
                                    n.start as int,
                                    element_end(src, nodes, i),
                                );
                            },
                        }
                    } else {
                        lemma_within_wider(
                            head,
                            n.start as int,
                            n.end as int,
                            n.start as int,
                            element_end(src, nodes, i),
                        );
                    }
                },
            },
        },
    }
}

/// The splices of a shift in the rows of a sheet lie inside the sheet
/// data, in order, and before every row that is yet to come.
pub proof fn lemma_rows_shift(
    src: Seq<u8>,
    nodes: Seq<Node>,
    p: int,
    j: int,
    shift: Shift,
    format: SheetFormat,
)
    requires
        wf_nodes(src, nodes),
        0 <= p < nodes.len(),
        nodes[p].kind == NodeKind::Open,
        p + 1 <= j <= close_of(nodes, p),
    ensures
        rows_shift(src, nodes, p + 1, j, nodes[p].depth + 1, shift, format) matches Ok(s) ==> {
            &&& within(s, nodes[p].end as int, nodes[close_of(nodes, p) - 1].end as int)
            &&& forall|m: int, k: int|
                j <= m < close_of(nodes, p) && nodes[m].is_element() && nodes[m].depth
                    == nodes[p].depth + 1 && 0 <= k < s.len() ==> (#[trigger] s[k]).end <= (
                #[trigger] nodes[m]).start
        },
    decreases j - p,
{
    let e = close_of(nodes, p);
    let d = nodes[p].depth + 1;
    let lo = nodes[p].end as int;
    let hi = nodes[e - 1].end as int;
    lemma_close(src, nodes, p);
    if j > p + 1 {
        lemma_rows_shift(src, nodes, p, j - 1, shift, format);
        match rows_shift(src, nodes, p + 1, j - 1, d, shift, format) {
            Err(_) => {},
            Ok(before) => {
                match rows_shift(src, nodes, p + 1, j, d, shift, format) {
                    Err(_) => {},
                    Ok(s) => {
                        let n = nodes[j - 1];
                        if is_child(src, n, d, lit("row")) {
                            let more = row_shift(src, nodes, j - 1, shift, format).unwrap();
                            lemma_row_splices(src, nodes, j - 1, shift, format);
                            lemma_child_inside(src, nodes, p, j - 1);
                            let mid = n.start as int;
                            let end = element_end(src, nodes, j - 1);
                            assert forall|k: int| 0 <= k < before.len() implies (
                            #[trigger] before[k]).end <= mid by {
                                assert(before[k].end <= nodes[j - 1].start);
                            }
                            lemma_within_before(before, lo, hi, mid);
                            lemma_within_concat(before, more, lo, mid, end);
                            lemma_within_wider(before + more, lo, end, lo, hi);
                            assert(s == before + more);
                            assert forall|m: int, k: int|
                                j <= m < e && nodes[m].is_element() && nodes[m].depth == d && 0
                                    <= k < s.len() implies (#[trigger] s[k]).end <= (
                            #[trigger] nodes[m]).start by {
                                lemma_sibling(src, nodes, j - 1, m);
                                if k < before.len() {
                                    assert(s[k] == before[k]);
                                } else {
                                    assert(s[k] == more[k - before.len()]);
                                }
                            }
                        } else {
                            assert(s == before);
                        }
                    },
                }
            },
        }
    }
}

/// The splices of a shift are in order: they can always be made.
pub proof fn lemma_shift_in_order(src: Seq<u8>, nodes: Seq<Node>, shift: Shift, format: SheetFormat)
    requires
        wf_nodes(src, nodes),
    ensures
        shift_plan(src, nodes, shift, format) matches Ok(s) ==> ordered(s, src.len() as int),
{
    let all = nodes.len() as int;
    let sd = next_element(src, nodes, 0, all, 1, lit("sheetData"));
    lemma_next_element(src, nodes, 0, all, 1, lit("sheetData"));
    if sd < all && nodes[sd].kind != NodeKind::Empty {
        lemma_close(src, nodes, sd);
        let e = close_of(nodes, sd);
        lemma_rows_shift(src, nodes, sd, e, shift, format);
        lemma_element_end(src, nodes, sd);
        assert(node_fits(src, nodes, e - 1));
        match shift_plan(src, nodes, shift, format) {
            Err(_) => {},
            Ok(s) => {
                lemma_within_ordered(
                    s,
                    nodes[sd].end as int,
                    nodes[e - 1].end as int,
                    src.len() as int,
                );
            },
        }
    }
}

/// Inserts or deletes a row or column of the sheet and returns the part's
/// new bytes: each row and cell behind the line carries its new position,
/// the elements of a deleted line are gone, and every other byte is the
/// source's. `OutOfRangeReference` if a row or cell would leave the grid.
pub fn shift_lines(part: &Part, shift: Shift, format: SheetFormat) -> (outcome: Result<
    Vec<u8>,
    PatchError,
>)
    requires
        part.wf(),
    ensures
        bytes_of(outcome) == made(part.src@, shift_plan(part.src@, part.nodes@, shift, format)),
{
    proof {
        lemma_shift_in_order(part.src@, part.nodes@, shift, format);
    }
    make(part.src.as_slice(), plan_shift(part, shift, format))
}

} // verus!
