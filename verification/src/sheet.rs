//! Cell edits on a sheet part.
//!
//! A sheet keeps its cells in `row` elements inside `sheetData`, each row
//! and each cell with its position in the attribute `r`. An edit finds the
//! cell, or the place where it belongs, and names the splices that change
//! it: an attribute of the cell's tag, the child element that holds the
//! value or formula, or a new cell or row. Everything else in the part,
//! known or not, is outside those splices and is copied as it stands.

use vstd::prelude::*;
use vstd::slice::slice_subrange;
use crate::attrs::{
    attr_range, attr_slot, attr_splice, attr_text, escaped, find_attr, lemma_attr_splice, open_up,
    opened, push_attr, push_escaped, set_attr,
};
use crate::bytes::{
    append, append_lit, decimal, decimal_u32, lit, parse_decimal, push_decimal, text_of,
};
use crate::cellref::{address, address_u32, parse_address, push_address};
use crate::error::PatchError;
use crate::part::{lemma_depth_bound, lemma_nodes_ascend, node_fits, wf_nodes, Node, Part};
use crate::plan::{Content, ContentView};
use crate::render::{push_text, text_xml};
use crate::splice::{
    bytes_of, insert_at, insertion, lemma_drift_behind, lemma_drift_none, lemma_spliced_len,
    lemma_untouched, lemma_within_concat, lemma_within_ordered, lemma_within_push,
    lemma_within_put, lemma_within_wider, made, make, one, ordered, splice_views, views_of,
    within, Splice, SpliceView,
};
use crate::tree::{
    close_index, close_of, element_end, element_end_at, find_element, is_child, lemma_child_inside,
    lemma_close, lemma_element_end, lemma_ends_ascend, lemma_next_element, lemma_sibling,
    next_element, node_is,
};
use crate::xml::NodeKind;

verus! {

/// Whether lines are told apart by their row or by their column.
#[derive(Clone, Copy, Debug, PartialEq, Eq, Structural)]
pub enum Axis {
    Row,
    Column,
}

/// Where a line is, or where it belongs.
pub enum Place {
    /// The line is the element that starts at this node.
    At(int),
    /// There is no such line; it belongs before this node.
    Before(int),
    /// An element on the way has no position that can be read.
    Invalid,
}

/// Where a line is, or where it belongs.
#[derive(Clone, Copy, Debug)]
pub enum Slot {
    At(usize),
    Before(usize),
    Invalid,
}

impl View for Slot {
    type V = Place;

    open spec fn view(&self) -> Place {
        match *self {
            Slot::At(j) => Place::At(j as int),
            Slot::Before(j) => Place::Before(j as int),
            Slot::Invalid => Place::Invalid,
        }
    }
}

/// The position a row or cell element gives in its attribute `r`: the row
/// number of a row, the column of a cell.
pub open spec fn line_key(src: Seq<u8>, n: Node, axis: Axis) -> Option<u32> {
    match attr_range(src, n, lit("r")) {
        None => None,
        Some((from, to)) => match axis {
            Axis::Row => decimal_u32(src.subrange(from, to)),
            Axis::Column => match address_u32(src.subrange(from, to)) {
                Some((row, col)) => Some(col),
                None => None,
            },
        },
    }
}

/// Looks through the elements called `name` at `depth` among the nodes
/// `j..to`, in order, for the line with position `key`: it is found at the
/// first element with that position, and belongs before the first element
/// with a greater one, or at the end.
pub open spec fn find_line(
    src: Seq<u8>,
    nodes: Seq<Node>,
    j: int,
    to: int,
    depth: int,
    name: Seq<u8>,
    axis: Axis,
    key: u32,
) -> Place
    decreases to - j,
{
    if !(0 <= j < to && j < nodes.len()) {
        Place::Before(j)
    } else if is_child(src, nodes[j], depth, name) {
        match line_key(src, nodes[j], axis) {
            None => Place::Invalid,
            Some(k) => if k == key {
                Place::At(j)
            } else if k > key {
                Place::Before(j)
            } else {
                find_line(src, nodes, j + 1, to, depth, name, axis, key)
            },
        }
    } else {
        find_line(src, nodes, j + 1, to, depth, name, axis, key)
    }
}

/// What an edit does to a cell element: the attribute it sets, and the
/// child element it puts in place of the children called `tag` or `alt`.
#[derive(Debug)]
pub struct CellDelta {
    pub attr: Option<(Vec<u8>, Vec<u8>)>,
    pub child: Option<Vec<u8>>,
    pub tag: Vec<u8>,
    pub alt: Vec<u8>,
    /// Whether the new child stands before the cell's other children.
    pub first: bool,
}

/// What a cell delta is.
pub struct CellDeltaView {
    pub attr: Option<(Seq<u8>, Seq<u8>)>,
    pub child: Option<Seq<u8>>,
    pub tag: Seq<u8>,
    pub alt: Seq<u8>,
    pub first: bool,
}

impl View for CellDelta {
    type V = CellDeltaView;

    open spec fn view(&self) -> CellDeltaView {
        CellDeltaView {
            attr: match self.attr {
                Some((name, value)) => Some((name@, value@)),
                None => None,
            },
            child: match self.child {
                Some(xml) => Some(xml@),
                None => None,
            },
            tag: self.tag@,
            alt: self.alt@,
            first: self.first,
        }
    }
}

/// The child element that holds a value: `v` with the id of a shared
/// string, a number or a truth value, or `is` with text of the cell's own.
pub open spec fn value_xml(content: ContentView) -> Seq<u8> {
    match content {
        ContentView::SharedString(id) => lit("<v>") + decimal(id as nat) + lit("</v>"),
        ContentView::Inline(t) => lit("<is>") + text_xml(t) + lit("</is>"),
        ContentView::Number(n) => lit("<v>") + escaped(n) + lit("</v>"),
        ContentView::Bool(b) => if b {
            lit("<v>1</v>")
        } else {
            lit("<v>0</v>")
        },
    }
}

/// The cell type that goes with a value.
pub open spec fn value_type(content: ContentView) -> Seq<u8> {
    match content {
        ContentView::SharedString(_) => lit("s"),
        ContentView::Inline(_) => lit("inlineStr"),
        ContentView::Number(_) => lit("n"),
        ContentView::Bool(_) => lit("b"),
    }
}

/// Setting a value: the type goes into `t`, and the new value stands
/// behind the other children in place of any `v` or inline string.
pub open spec fn value_delta(content: ContentView) -> CellDeltaView {
    CellDeltaView {
        attr: Some((lit("t"), value_type(content))),
        child: Some(value_xml(content)),
        tag: lit("v"),
        alt: lit("is"),
        first: false,
    }
}

/// Setting a style: its id goes into `s`; no child changes.
pub open spec fn style_delta(style: usize) -> CellDeltaView {
    CellDeltaView {
        attr: Some((lit("s"), decimal(style as nat))),
        child: None,
        tag: lit("v"),
        alt: lit("v"),
        first: false,
    }
}

/// Setting a formula: a new `f` stands before the other children in place
/// of any `f`.
pub open spec fn formula_delta(formula: Seq<u8>) -> CellDeltaView {
    CellDeltaView {
        attr: None,
        child: Some(lit("<f>") + escaped(formula) + lit("</f>")),
        tag: lit("f"),
        alt: lit("f"),
        first: true,
    }
}

/// A new cell element.
pub open spec fn new_cell_xml(row: u32, col: u32, delta: CellDeltaView) -> Seq<u8> {
    lit("<c r=\"") + address(row as nat, col as nat) + lit("\"") + (match delta.attr {
        Some((name, value)) => attr_text(name, value),
        None => Seq::<u8>::empty(),
    }) + (match delta.child {
        Some(xml) => lit(">") + xml + lit("</c>"),
        None => lit("/>"),
    })
}

/// A new row element with one cell.
pub open spec fn new_row_xml(row: u32, col: u32, delta: CellDeltaView) -> Seq<u8> {
    lit("<row r=\"") + decimal(row as nat) + lit("\">") + new_cell_xml(row, col, delta) + lit(
        "</row>",
    )
}

/// The splices that take out the children of a cell that a new child
/// replaces: the elements called `tag` or `alt` among the nodes `from..j`.
/// A child that carries a `t` attribute belongs to a group of cells and is
/// not taken out: `UnsupportedFeature`.
pub open spec fn removals(
    src: Seq<u8>,
    nodes: Seq<Node>,
    from: int,
    j: int,
    depth: int,
    tag: Seq<u8>,
    alt: Seq<u8>,
) -> Result<Seq<SpliceView>, PatchError>
    decreases j - from,
{
    if j <= from {
        Ok(Seq::<SpliceView>::empty())
    } else {
        match removals(src, nodes, from, j - 1, depth, tag, alt) {
            Err(e) => Err(e),
            Ok(s) => {
                let n = nodes[j - 1];
                if is_child(src, n, depth, tag) || is_child(src, n, depth, alt) {
                    if attr_range(src, n, lit("t")) is Some {
                        Err(PatchError::UnsupportedFeature)
                    } else {
                        Ok(
                            s.push(
                                SpliceView {
                                    start: n.start as int,
                                    end: element_end(src, nodes, j - 1),
                                    text: Seq::<u8>::empty(),
                                },
                            ),
                        )
                    }
                } else {
                    Ok(s)
                }
            },
        }
    }
}

/// The attribute splice of a delta on the tag of node `c`, if it has one.
pub open spec fn attr_part(src: Seq<u8>, n: Node, delta: CellDeltaView) -> Seq<SpliceView> {
    match delta.attr {
        Some((name, value)) => seq![attr_splice(src, n, name, value)],
        None => Seq::<SpliceView>::empty(),
    }
}

/// The splices that change the cell element at node `c`.
pub open spec fn patch_splices(
    src: Seq<u8>,
    nodes: Seq<Node>,
    c: int,
    delta: CellDeltaView,
) -> Result<Seq<SpliceView>, PatchError> {
    let n = nodes[c];
    let head = attr_part(src, n, delta);
    match delta.child {
        None => Ok(head),
        Some(xml) => if n.kind == NodeKind::Empty {
            Ok(head.push(opened(n, xml, lit("c"))))
        } else {
            let e = close_of(nodes, c);
            match removals(src, nodes, c + 1, e, n.depth + 1, delta.tag, delta.alt) {
                Err(err) => Err(err),
                Ok(gone) => if delta.first {
                    Ok(head.push(insertion(n.end as int, xml)) + gone)
                } else {
                    Ok((head + gone).push(insertion(nodes[e - 1].end as int, xml)))
                },
            }
        },
    }
}

/// The splices that give the cell in row `row` and column `col` what
/// `delta` says. The cell is changed where it exists; else a new cell is
/// put into its row before the first cell of a later column, and where the
/// row does not exist either, a new row before the first later row. A part
/// without `sheetData`, or with a row or cell on the way whose position
/// cannot be read, is refused with `UnsupportedFeature`.
pub open spec fn cell_splices(
    src: Seq<u8>,
    nodes: Seq<Node>,
    row: u32,
    col: u32,
    delta: CellDeltaView,
) -> Result<Seq<SpliceView>, PatchError> {
    let sd = next_element(src, nodes, 0, nodes.len() as int, 1, lit("sheetData"));
    if sd >= nodes.len() {
        Err(PatchError::UnsupportedFeature)
    } else if nodes[sd].kind == NodeKind::Empty {
        Ok(seq![opened(nodes[sd], new_row_xml(row, col, delta), lit("sheetData"))])
    } else {
        match find_line(
            src,
            nodes,
            sd + 1,
            close_of(nodes, sd),
            nodes[sd].depth + 1,
            lit("row"),
            Axis::Row,
            row,
        ) {
            Place::Invalid => Err(PatchError::UnsupportedFeature),
            Place::Before(j) => Ok(
                seq![insertion(nodes[j - 1].end as int, new_row_xml(row, col, delta))],
            ),
            Place::At(r) => if nodes[r].kind == NodeKind::Empty {
                Ok(seq![opened(nodes[r], new_cell_xml(row, col, delta), lit("row"))])
            } else {
                match find_line(
                    src,
                    nodes,
                    r + 1,
                    close_of(nodes, r),
                    nodes[r].depth + 1,
                    lit("c"),
                    Axis::Column,
                    col,
                ) {
                    Place::Invalid => Err(PatchError::UnsupportedFeature),
                    Place::Before(j) => Ok(
                        seq![insertion(nodes[j - 1].end as int, new_cell_xml(row, col, delta))],
                    ),
                    Place::At(c) => patch_splices(src, nodes, c, delta),
                }
            },
        }
    }
}

/// What `find_line` finds lies in the range it looked through.
pub proof fn lemma_find_line(
    src: Seq<u8>,
    nodes: Seq<Node>,
    j: int,
    to: int,
    depth: int,
    name: Seq<u8>,
    axis: Axis,
    key: u32,
)
    requires
        0 <= j <= to <= nodes.len(),
    ensures
        match find_line(src, nodes, j, to, depth, name, axis, key) {
            Place::At(r) => j <= r < to && is_child(src, nodes[r], depth, name),
            Place::Before(b) => j <= b <= to,
            Place::Invalid => true,
        },
    decreases to - j,
{
    if j < to {
        if is_child(src, nodes[j], depth, name) {
            match line_key(src, nodes[j], axis) {
                None => {},
                Some(k) => {
                    if k < key {
                        lemma_find_line(src, nodes, j + 1, to, depth, name, axis, key);
                    }
                },
            }
        } else {
            lemma_find_line(src, nodes, j + 1, to, depth, name, axis, key);
        }
    }
}

/// The attribute splice of a delta lies inside the tag of the cell.
pub proof fn lemma_attr_part(src: Seq<u8>, nodes: Seq<Node>, c: int, delta: CellDeltaView)
    requires
        wf_nodes(src, nodes),
        0 <= c < nodes.len(),
        nodes[c].is_element(),
    ensures
        within(attr_part(src, nodes[c], delta), nodes[c].start as int, attr_slot(nodes[c])),
        nodes[c].start <= attr_slot(nodes[c]) < nodes[c].end <= src.len(),
        2 <= nodes[c].end,
{
    assert(node_fits(src, nodes, c));
    match delta.attr {
        Some((name, value)) => {
            lemma_attr_splice(src, nodes, c, name, value);
        },
        None => {},
    }
}

/// The splices that take out children of a cell lie inside the cell, in
/// order, and before every child that is yet to come.
pub proof fn lemma_removals(
    src: Seq<u8>,
    nodes: Seq<Node>,
    p: int,
    j: int,
    tag: Seq<u8>,
    alt: Seq<u8>,
)
    requires
        wf_nodes(src, nodes),
        0 <= p < nodes.len(),
        nodes[p].kind == NodeKind::Open,
        p + 1 <= j <= close_of(nodes, p),
    ensures
        removals(src, nodes, p + 1, j, nodes[p].depth + 1, tag, alt) matches Ok(s) ==> {
            &&& within(s, nodes[p].end as int, nodes[close_of(nodes, p) - 1].end as int)
            &&& forall|m: int, k: int|
                j <= m < close_of(nodes, p) && nodes[m].is_element() && nodes[m].depth
                    == nodes[p].depth + 1 && 0 <= k < s.len() ==> (#[trigger] s[k]).end <= (
                #[trigger] nodes[m]).start
        },
    decreases j - p,
{
    let e = close_of(nodes, p);
    let d = nodes[p].depth + 1;
    lemma_close(src, nodes, p);
    if j > p + 1 {
        lemma_removals(src, nodes, p, j - 1, tag, alt);
        match removals(src, nodes, p + 1, j - 1, d, tag, alt) {
            Err(_) => {},
            Ok(before) => {
                match removals(src, nodes, p + 1, j, d, tag, alt) {
                    Err(_) => {},
                    Ok(s) => {
                        let n = nodes[j - 1];
                        if is_child(src, n, d, tag) || is_child(src, n, d, alt) {
                            let x = SpliceView {
                                start: n.start as int,
                                end: element_end(src, nodes, j - 1),
                                text: Seq::<u8>::empty(),
                            };
                            lemma_child_inside(src, nodes, p, j - 1);
                            assert forall|k: int| 0 <= k < before.len() implies (
                            #[trigger] before[k]).end <= x.start by {
                                assert(before[k].end <= nodes[j - 1].start);
                            }
                            lemma_within_put(
                                before,
                                nodes[p].end as int,
                                nodes[e - 1].end as int,
                                x,
                            );
                            assert(s == before.push(x));
                            assert forall|m: int, k: int|
                                j <= m < e && nodes[m].is_element() && nodes[m].depth == d && 0
                                    <= k < s.len() implies (#[trigger] s[k]).end <= (
                            #[trigger] nodes[m]).start by {
                                if k < before.len() {
                                    assert(s[k] == before[k]);
                                } else {
                                    lemma_sibling(src, nodes, j - 1, m);
                                }
                            }
                        } else {
                            assert(s == before);
                        }
                    },
                }
            },
        }
    }
}

/// The splices that change a cell element lie inside the element, in
/// order.
pub proof fn lemma_patch_inside(src: Seq<u8>, nodes: Seq<Node>, c: int, delta: CellDeltaView)
    requires
        wf_nodes(src, nodes),
        0 <= c < nodes.len(),
        nodes[c].is_element(),
    ensures
        nodes[c].start <= element_end(src, nodes, c) <= src.len(),
        patch_splices(src, nodes, c, delta) matches Ok(s) ==> within(
            s,
            nodes[c].start as int,
            element_end(src, nodes, c),
        ),
{
    let n = nodes[c];
    let lo = n.start as int;
    let hi = element_end(src, nodes, c);
    let head = attr_part(src, n, delta);
    lemma_attr_part(src, nodes, c, delta);
    lemma_element_end(src, nodes, c);
    assert(node_fits(src, nodes, c));
    match delta.child {
        None => {
            lemma_within_wider(head, lo, attr_slot(n), lo, hi);
        },
        Some(xml) => {
            if n.kind == NodeKind::Empty {
                lemma_within_push(head, lo, attr_slot(n), opened(n, xml, lit("c")), n.end as int);
            } else {
                let e = close_of(nodes, c);
                lemma_close(src, nodes, c);
                lemma_removals(src, nodes, c, e, delta.tag, delta.alt);
                assert(node_fits(src, nodes, e - 1));
                if c < e - 1 {
                    lemma_nodes_ascend(src, nodes, c, e - 1);
                }
                let last = nodes[e - 1].end as int;
                match removals(src, nodes, c + 1, e, n.depth + 1, delta.tag, delta.alt) {
                    Err(_) => {},
                    Ok(gone) => {
                        if delta.first {
                            let first = head.push(insertion(n.end as int, xml));
                            lemma_within_push(
                                head,
                                lo,
                                attr_slot(n),
                                insertion(n.end as int, xml),
                                n.end as int,
                            );
                            lemma_within_concat(first, gone, lo, n.end as int, last);
                            lemma_within_wider(first + gone, lo, last, lo, hi);
                        } else {
                            lemma_within_wider(head, lo, attr_slot(n), lo, n.end as int);
                            lemma_within_concat(head, gone, lo, n.end as int, last);
                            lemma_within_push(head + gone, lo, last, insertion(last, xml), last);
                            lemma_within_wider(
                                (head + gone).push(insertion(last, xml)),
                                lo,
                                last,
                                lo,
                                hi,
                            );
                        }
                    },
                }
            }
        },
    }
}

/// The sheet data of a part: the node that starts it, or the number of
/// nodes if the part has none.
pub open spec fn sheet_data(src: Seq<u8>, nodes: Seq<Node>) -> int {
    next_element(src, nodes, 0, nodes.len() as int, 1, lit("sheetData"))
}

/// The splices of a cell edit lie inside the sheet data, in order.
pub proof fn lemma_cell_inside(
    src: Seq<u8>,
    nodes: Seq<Node>,
    row: u32,
    col: u32,
    delta: CellDeltaView,
)
    requires
        wf_nodes(src, nodes),
    ensures
        cell_splices(src, nodes, row, col, delta) matches Ok(s) ==> {
            &&& sheet_data(src, nodes) < nodes.len()
            &&& within(
                s,
                nodes[sheet_data(src, nodes)].start as int,
                element_end(src, nodes, sheet_data(src, nodes)),
            )
            &&& element_end(src, nodes, sheet_data(src, nodes)) <= src.len()
        },
{
    let all = nodes.len() as int;
    let sd = sheet_data(src, nodes);
    lemma_next_element(src, nodes, 0, all, 1, lit("sheetData"));
    if sd < all {
        assert(node_fits(src, nodes, sd));
        lemma_element_end(src, nodes, sd);
        let lo = nodes[sd].start as int;
        let hi = element_end(src, nodes, sd);
        if nodes[sd].kind != NodeKind::Empty {
            lemma_close(src, nodes, sd);
            let to = close_of(nodes, sd);
            let depth = nodes[sd].depth + 1;
            lemma_find_line(src, nodes, sd + 1, to, depth, lit("row"), Axis::Row, row);
            match find_line(src, nodes, sd + 1, to, depth, lit("row"), Axis::Row, row) {
                Place::Invalid => {},
                Place::Before(j) => {
                    assert(node_fits(src, nodes, j - 1));
                    lemma_ends_ascend(src, nodes, sd, j - 1);
                    lemma_ends_ascend(src, nodes, j - 1, to - 1);
                },
                Place::At(r) => {
                    assert(node_fits(src, nodes, r));
                    lemma_child_inside(src, nodes, sd, r);
                    lemma_element_end(src, nodes, r);
                    if nodes[r].kind != NodeKind::Empty {
                        lemma_close(src, nodes, r);
                        let end = close_of(nodes, r);
                        let below = nodes[r].depth + 1;
                        let cell = lit("c");
                        lemma_find_line(src, nodes, r + 1, end, below, cell, Axis::Column, col);
                        match find_line(src, nodes, r + 1, end, below, cell, Axis::Column, col) {
                            Place::Invalid => {},
                            Place::Before(j) => {
                                assert(node_fits(src, nodes, j - 1));
                                lemma_ends_ascend(src, nodes, r, j - 1);
                                lemma_ends_ascend(src, nodes, j - 1, end - 1);
                            },
                            Place::At(c) => {
                                lemma_child_inside(src, nodes, r, c);
                                lemma_patch_inside(src, nodes, c, delta);
                                match patch_splices(src, nodes, c, delta) {
                                    Err(_) => {},
                                    Ok(s) => {
                                        lemma_within_wider(
                                            s,
                                            nodes[c].start as int,
                                            element_end(src, nodes, c),
                                            lo,
                                            hi,
                                        );
                                    },
                                }
                            },
                        }
                    }
                },
            }
        }
    }
}

/// The splices of a cell edit are in order: they can always be made.
pub proof fn lemma_cell_in_order(
    src: Seq<u8>,
    nodes: Seq<Node>,
    row: u32,
    col: u32,
    delta: CellDeltaView,
)
    requires
        wf_nodes(src, nodes),
    ensures
        cell_splices(src, nodes, row, col, delta) matches Ok(s) ==> ordered(s, src.len() as int),
{
    lemma_cell_inside(src, nodes, row, col, delta);
    match cell_splices(src, nodes, row, col, delta) {
        Err(_) => {},
        Ok(s) => {
            let sd = sheet_data(src, nodes);
            lemma_within_ordered(
                s,
                nodes[sd].start as int,
                element_end(src, nodes, sd),
                src.len() as int,
            );
        },
    }
}

/// Unknown content is preserved: a cell edit changes nothing outside the
/// sheet data. What stands before the sheet data stands unchanged at the
/// same place in the part's new bytes, and what stands behind it stands
/// unchanged, moved by as much as the sheet data grew.
pub proof fn lemma_cell_edit_keeps_rest(
    src: Seq<u8>,
    nodes: Seq<Node>,
    row: u32,
    col: u32,
    delta: CellDeltaView,
    a: int,
    b: int,
)
    requires
        wf_nodes(src, nodes),
        cell_splices(src, nodes, row, col, delta) is Ok,
        0 <= a < b <= src.len(),
        b <= nodes[sheet_data(src, nodes)].start || element_end(
            src,
            nodes,
            sheet_data(src, nodes),
        ) <= a,
    ensures
        made(src, cell_splices(src, nodes, row, col, delta)) matches Ok(out) && {
            let moved = out.len() - src.len();
            if b <= nodes[sheet_data(src, nodes)].start {
                out.subrange(a, b) == src.subrange(a, b)
            } else {
                b + moved <= out.len() && out.subrange(a + moved, b + moved) == src.subrange(a, b)
            }
        },
{
    let s = cell_splices(src, nodes, row, col, delta).unwrap();
    let sd = sheet_data(src, nodes);
    lemma_cell_inside(src, nodes, row, col, delta);
    lemma_cell_in_order(src, nodes, row, col, delta);
    lemma_untouched(src, s, a, b);
    lemma_spliced_len(src, s);
    if b <= nodes[sd].start {
        lemma_drift_none(s, a);
    } else {
        lemma_drift_behind(s, element_end(src, nodes, sd), a);
        lemma_drift_behind(s, element_end(src, nodes, sd), src.len() as int);
    }
}

/// Reads the position a row or cell element gives.
pub fn read_key(part: &Part, j: usize, axis: Axis) -> (key: Option<u32>)
    requires
        part.wf(),
        j < part.nodes@.len(),
    ensures
        key == line_key(part.src@, part.nodes@[j as int], axis),
{
    let node = part.nodes[j];
    assert(node_fits(part.src@, part.nodes@, j as int));
    match find_attr(part.src.as_slice(), node, "r".as_bytes()) {
        None => None,
        Some((from, to)) => {
            let text = slice_subrange(part.src.as_slice(), from, to);
            match axis {
                Axis::Row => parse_decimal(text),
                Axis::Column => match parse_address(text) {
                    Some((row, col)) => Some(col),
                    None => None,
                },
            }
        },
    }
}

/// Looks for the line with position `key` among the elements called `name`
/// at `depth` in `from..to`.
pub fn seek_line(
    part: &Part,
    from: usize,
    to: usize,
    depth: usize,
    name: &str,
    axis: Axis,
    key: u32,
) -> (slot: Slot)
    requires
        part.wf(),
        from <= to <= part.nodes@.len(),
    ensures
        slot@ == find_line(
            part.src@,
            part.nodes@,
            from as int,
            to as int,
            depth as int,
            lit(name),
            axis,
            key,
        ),
        match slot {
            Slot::At(j) => from <= j < to && part.nodes@[j as int].is_element(),
            Slot::Before(j) => from <= j <= to,
            Slot::Invalid => true,
        },
{
    let mut j: usize = from;
    while j < to
        invariant
            part.wf(),
            from <= j <= to <= part.nodes@.len(),
            find_line(
                part.src@,
                part.nodes@,
                from as int,
                to as int,
                depth as int,
                lit(name),
                axis,
                key,
            ) == find_line(
                part.src@,
                part.nodes@,
                j as int,
                to as int,
                depth as int,
                lit(name),
                axis,
                key,
            ),
        decreases to - j,
    {
        if node_is(part, j, depth, name.as_bytes()) {
            match read_key(part, j, axis) {
                None => {
                    return Slot::Invalid;
                },
                Some(k) => {
                    if k == key {
                        return Slot::At(j);
                    } else if k > key {
                        return Slot::Before(j);
                    }
                },
            }
        }
        j += 1;
    }
    Slot::Before(j)
}

/// The delta that sets a value.
pub fn make_value_delta(content: &Content) -> (delta: CellDelta)
    ensures
        delta@ == value_delta(content@),
{
    let mut child: Vec<u8> = Vec::new();
    let kind = match content {
        Content::SharedString(id) => {
            append_lit(&mut child, "<v>");
            push_decimal(&mut child, *id as u64);
            append_lit(&mut child, "</v>");
            text_of("s")
        },
        Content::Inline(t) => {
            append_lit(&mut child, "<is>");
            push_text(&mut child, t.as_slice());
            append_lit(&mut child, "</is>");
            text_of("inlineStr")
        },
        Content::Number(n) => {
            append_lit(&mut child, "<v>");
            push_escaped(&mut child, n.as_slice());
            append_lit(&mut child, "</v>");
            text_of("n")
        },
        Content::Bool(b) => {
            if *b {
                append_lit(&mut child, "<v>1</v>");
            } else {
                append_lit(&mut child, "<v>0</v>");
            }
            text_of("b")
        },
    };
    assert(child@ =~= value_xml(content@));
    CellDelta {
        attr: Some((text_of("t"), kind)),
        child: Some(child),
        tag: text_of("v"),
        alt: text_of("is"),
        first: false,
    }
}

/// The delta that sets a style.
pub fn make_style_delta(style: usize) -> (delta: CellDelta)
    ensures
        delta@ == style_delta(style),
{
    let mut id: Vec<u8> = Vec::new();
    push_decimal(&mut id, style as u64);
    assert(id@ =~= decimal(style as nat));
    CellDelta {
        attr: Some((text_of("s"), id)),
        child: None,
        tag: text_of("v"),
        alt: text_of("v"),
        first: false,
    }
}

/// The delta that sets a formula.
pub fn make_formula_delta(formula: &[u8]) -> (delta: CellDelta)
    ensures
        delta@ == formula_delta(formula@),
{
    let mut child: Vec<u8> = Vec::new();
    append_lit(&mut child, "<f>");
    push_escaped(&mut child, formula);
    append_lit(&mut child, "</f>");
    assert(child@ =~= lit("<f>") + escaped(formula@) + lit("</f>"));
    CellDelta { attr: None, child: Some(child), tag: text_of("f"), alt: text_of("f"), first: true }
}

/// Writes a new cell element.
pub fn new_cell(row: u32, col: u32, delta: &CellDelta) -> (xml: Vec<u8>)
    ensures
        xml@ == new_cell_xml(row, col, delta@),
{
    let mut out: Vec<u8> = Vec::new();
    append_lit(&mut out, "<c r=\"");
    push_address(&mut out, row, col);
    append_lit(&mut out, "\"");
    match &delta.attr {
        Some((name, value)) => {
            push_attr(&mut out, name.as_slice(), value.as_slice());
        },
        None => {},
    }
    match &delta.child {
        Some(xml) => {
            append_lit(&mut out, ">");
            append(&mut out, xml.as_slice());
            append_lit(&mut out, "</c>");
        },
        None => {
            append_lit(&mut out, "/>");
        },
    }
    assert(out@ =~= new_cell_xml(row, col, delta@));
    out
}

/// Writes a new row element with one cell.
pub fn new_row(row: u32, col: u32, delta: &CellDelta) -> (xml: Vec<u8>)
    ensures
        xml@ == new_row_xml(row, col, delta@),
{
    let mut out: Vec<u8> = Vec::new();
    append_lit(&mut out, "<row r=\"");
    push_decimal(&mut out, row as u64);
    append_lit(&mut out, "\">");
    let cell = new_cell(row, col, delta);
    append(&mut out, cell.as_slice());
    append_lit(&mut out, "</row>");
    assert(out@ =~= new_row_xml(row, col, delta@));
    out
}

/// Collects the splices that take out replaced children.
pub fn collect_removals(
    part: &Part,
    from: usize,
    to: usize,
    depth: usize,
    tag: &[u8],
    alt: &[u8],
) -> (outcome: Result<Vec<Splice>, PatchError>)
    requires
        part.wf(),
        from <= to <= part.nodes@.len(),
    ensures
        views_of(outcome) == removals(
            part.src@,
            part.nodes@,
            from as int,
            to as int,
            depth as int,
            tag@,
            alt@,
        ),
{
    let mut out: Vec<Splice> = Vec::new();
    let mut failed: bool = false;
    let mut j: usize = from;
    assert(splice_views(out@) =~= Seq::<SpliceView>::empty());
    while j < to
        invariant
            part.wf(),
            from <= j <= to <= part.nodes@.len(),
            removals(part.src@, part.nodes@, from as int, j as int, depth as int, tag@, alt@)
                == if failed {
                Err::<Seq<SpliceView>, PatchError>(PatchError::UnsupportedFeature)
            } else {
                Ok::<Seq<SpliceView>, PatchError>(splice_views(out@))
            },
        decreases to - j,
    {
        if !failed && (node_is(part, j, depth, tag) || node_is(part, j, depth, alt)) {
            let node = part.nodes[j];
            assert(node_fits(part.src@, part.nodes@, j as int));
            if find_attr(part.src.as_slice(), node, "t".as_bytes()).is_some() {
                failed = true;
            } else {
                let end = element_end_at(part, j);
                let ghost before = splice_views(out@);
                let splice = Splice { start: node.start, end, text: Vec::new() };
                out.push(splice);
                assert(splice_views(out@) =~= before.push(splice@));
            }
        }
        j += 1;
    }
    if failed {
        Err(PatchError::UnsupportedFeature)
    } else {
        Ok(out)
    }
}

/// Names the splices that change the cell element at node `c`.
pub fn patch_cell(part: &Part, c: usize, delta: &CellDelta) -> (outcome: Result<
    Vec<Splice>,
    PatchError,
>)
    requires
        part.wf(),
        c < part.nodes@.len(),
        part.nodes@[c as int].is_element(),
    ensures
        views_of(outcome) == patch_splices(part.src@, part.nodes@, c as int, delta@),
{
    let node = part.nodes[c];
    let src = part.src.as_slice();
    proof {
        assert(node_fits(part.src@, part.nodes@, c as int));
        lemma_depth_bound(part.src@, part.nodes@, c as int);
    }
    let n: usize = part.nodes.len();
    let mut out: Vec<Splice> = Vec::new();
    assert(splice_views(out@) =~= Seq::<SpliceView>::empty());
    match &delta.attr {
        Some((name, value)) => {
            let splice = set_attr(src, node, name.as_slice(), value.as_slice());
            out.push(splice);
            assert(splice_views(out@) =~= seq![splice@]);
        },
        None => {},
    }
    let ghost head = splice_views(out@);
    assert(head == attr_part(part.src@, node, delta@));
    match &delta.child {
        None => Ok(out),
        Some(xml) => {
            match node.kind {
                NodeKind::Empty => {
                    let splice = open_up(node, xml.as_slice(), "c");
                    out.push(splice);
                    assert(splice_views(out@) =~= head.push(splice@));
                    Ok(out)
                },
                _ => {
                    let e = close_index(part, c);
                    if delta.first {
                        let splice = insert_at(node.end, xml.as_slice());
                        out.push(splice);
                        assert(splice_views(out@) =~= head.push(splice@));
                    }
                    let ghost lead = splice_views(out@);
                    match collect_removals(
                        part,
                        c + 1,
                        e,
                        node.depth + 1,
                        delta.tag.as_slice(),
                        delta.alt.as_slice(),
                    ) {
                        Err(err) => Err(err),
                        Ok(gone) => {
                            let mut gone = gone;
                            let ghost gone_views = splice_views(gone@);
                            out.append(&mut gone);
                            assert(splice_views(out@) =~= lead + gone_views);
                            if !delta.first {
                                let splice = insert_at(part.nodes[e - 1].end, xml.as_slice());
                                let ghost before = splice_views(out@);
                                out.push(splice);
                                assert(splice_views(out@) =~= before.push(splice@));
                            }
                            Ok(out)
                        },
                    }
                },
            }
        },
    }
}

/// Names the splices that give a cell what `delta` says.
pub fn cell_patch(part: &Part, row: u32, col: u32, delta: &CellDelta) -> (outcome: Result<
    Vec<Splice>,
    PatchError,
>)
    requires
        part.wf(),
    ensures
        views_of(outcome) == cell_splices(part.src@, part.nodes@, row, col, delta@),
{
    let n: usize = part.nodes.len();
    let sd = find_element(part, 0, n, 1, "sheetData");
    if sd >= n {
        return Err(PatchError::UnsupportedFeature);
    }
    let data = part.nodes[sd];
    proof {
        assert(node_fits(part.src@, part.nodes@, sd as int));
        lemma_depth_bound(part.src@, part.nodes@, sd as int);
    }
    match data.kind {
        NodeKind::Empty => {
            let xml = new_row(row, col, delta);
            return Ok(one(open_up(data, xml.as_slice(), "sheetData")));
        },
        _ => {},
    }
    let data_end = close_index(part, sd);
    match seek_line(part, sd + 1, data_end, data.depth + 1, "row", Axis::Row, row) {
        Slot::Invalid => Err(PatchError::UnsupportedFeature),
        Slot::Before(j) => {
            let xml = new_row(row, col, delta);
            Ok(one(insert_at(part.nodes[j - 1].end, xml.as_slice())))
        },
        Slot::At(r) => {
            let line = part.nodes[r];
            proof {
                assert(node_fits(part.src@, part.nodes@, r as int));
                lemma_depth_bound(part.src@, part.nodes@, r as int);
            }
            match line.kind {
                NodeKind::Empty => {
                    let xml = new_cell(row, col, delta);
                    return Ok(one(open_up(line, xml.as_slice(), "row")));
                },
                _ => {},
            }
            let line_end = close_index(part, r);
            match seek_line(part, r + 1, line_end, line.depth + 1, "c", Axis::Column, col) {
                Slot::Invalid => Err(PatchError::UnsupportedFeature),
                Slot::Before(j) => {
                    let xml = new_cell(row, col, delta);
                    Ok(one(insert_at(part.nodes[j - 1].end, xml.as_slice())))
                },
                Slot::At(c) => patch_cell(part, c, delta),
            }
        },
    }
}

/// Gives the cell in row `row` and column `col` what `delta` says, and
/// returns the part's new bytes: the source with the splices of
/// `cell_splices` made. Nothing outside those splices differs from the
/// source.
pub fn set_cell(part: &Part, row: u32, col: u32, delta: &CellDelta) -> (outcome: Result<
    Vec<u8>,
    PatchError,
>)
    requires
        part.wf(),
    ensures
        bytes_of(outcome) == made(
            part.src@,
            cell_splices(part.src@, part.nodes@, row, col, delta@),
        ),
{
    proof {
        lemma_cell_in_order(part.src@, part.nodes@, row, col, delta@);
    }
    make(part.src.as_slice(), cell_patch(part, row, col, delta))
}

} // verus!
