//! Finding elements among the nodes of a part.

use vstd::prelude::*;
use vstd::slice::slice_subrange;
use crate::bytes::{bytes_eq, lit};
use crate::part::{
    lemma_nodes_ascend, lemma_open_stack_none, node_fits, open_stack, tag_name, wf_nodes, Node,
    Part,
};
use crate::xml::NodeKind;

verus! {

/// The first position at or after `j` whose node is nested no deeper than
/// `depth`, or the number of nodes.
pub open spec fn next_shallower(nodes: Seq<Node>, j: int, depth: int) -> int
    decreases nodes.len() - j,
{
    if 0 <= j < nodes.len() && nodes[j].depth > depth {
        next_shallower(nodes, j + 1, depth)
    } else {
        j
    }
}

/// Where the content of the element that starts at node `i` ends: at that
/// element's end tag.
pub open spec fn close_of(nodes: Seq<Node>, i: int) -> int {
    next_shallower(nodes, i + 1, nodes[i].depth as int)
}

/// Where the element that starts at node `i` ends in the source.
pub open spec fn element_end(src: Seq<u8>, nodes: Seq<Node>, i: int) -> int {
    if nodes[i].kind == NodeKind::Open {
        let c = close_of(nodes, i);
        if c < nodes.len() {
            nodes[c].end as int
        } else {
            src.len() as int
        }
    } else {
        nodes[i].end as int
    }
}

/// The node is the start of an element called `name`, nested at `depth`.
pub open spec fn is_child(src: Seq<u8>, n: Node, depth: int, name: Seq<u8>) -> bool {
    n.is_element() && n.depth == depth && tag_name(src, n) == name
}

/// The first position in `j..to` that starts an element called `name` at
/// `depth`, or `to`.
pub open spec fn next_element(
    src: Seq<u8>,
    nodes: Seq<Node>,
    j: int,
    to: int,
    depth: int,
    name: Seq<u8>,
) -> int
    decreases to - j,
{
    if 0 <= j < to && j < nodes.len() && !is_child(src, nodes[j], depth, name) {
        next_element(src, nodes, j + 1, to, depth, name)
    } else {
        j
    }
}

/// Where the content of the element that starts at node `i` ends.
pub fn close_index(part: &Part, i: usize) -> (c: usize)
    requires
        i < part.nodes@.len(),
    ensures
        c == close_of(part.nodes@, i as int),
        i < c <= part.nodes@.len(),
{
    let n: usize = part.nodes.len();
    let depth: usize = part.nodes[i].depth;
    let mut j: usize = i + 1;
    while j < part.nodes.len() && part.nodes[j].depth > depth
        invariant
            i < j <= part.nodes@.len(),
            next_shallower(part.nodes@, i + 1, depth as int) == next_shallower(
                part.nodes@,
                j as int,
                depth as int,
            ),
        decreases part.nodes@.len() - j,
    {
        j += 1;
    }
    j
}

/// Where the element that starts at node `i` ends in the source.
pub fn element_end_at(part: &Part, i: usize) -> (end: usize)
    requires
        part.wf(),
        i < part.nodes@.len(),
    ensures
        end == element_end(part.src@, part.nodes@, i as int),
        part.nodes@[i as int].end <= end <= part.src@.len(),
{
    assert(node_fits(part.src@, part.nodes@, i as int));
    match part.nodes[i].kind {
        NodeKind::Open => {
            let c = close_index(part, i);
            if c < part.nodes.len() {
                proof {
                    assert(node_fits(part.src@, part.nodes@, c as int));
                    lemma_nodes_ascend(part.src@, part.nodes@, i as int, c as int);
                }
                part.nodes[c].end
            } else {
                part.src.len()
            }
        },
        _ => part.nodes[i].end,
    }
}

/// Whether node `j` starts an element called `name` at `depth`.
pub fn node_is(part: &Part, j: usize, depth: usize, name: &[u8]) -> (yes: bool)
    requires
        part.wf(),
        j < part.nodes@.len(),
    ensures
        yes == is_child(part.src@, part.nodes@[j as int], depth as int, name@),
{
    let node = part.nodes[j];
    assert(node_fits(part.src@, part.nodes@, j as int));
    match node.kind {
        NodeKind::Open | NodeKind::Empty => {
            node.depth == depth && bytes_eq(
                slice_subrange(part.src.as_slice(), node.start + 1, node.name_end),
                name,
            )
        },
        _ => false,
    }
}

/// The first position in `from..to` that starts an element called `name`
/// at `depth`.
pub fn find_element(part: &Part, from: usize, to: usize, depth: usize, name: &str) -> (at: usize)
    requires
        part.wf(),
        from <= to <= part.nodes@.len(),
    ensures
        at == next_element(part.src@, part.nodes@, from as int, to as int, depth as int, lit(name)),
        from <= at <= to,
        at < to ==> is_child(part.src@, part.nodes@[at as int], depth as int, lit(name)),
{
    let mut j: usize = from;
    while j < to && !node_is(part, j, depth, name.as_bytes())
        invariant
            part.wf(),
            from <= j <= to <= part.nodes@.len(),
            next_element(part.src@, part.nodes@, from as int, to as int, depth as int, lit(name))
                == next_element(
                part.src@,
                part.nodes@,
                j as int,
                to as int,
                depth as int,
                lit(name),
            ),
        decreases to - j,
    {
        j += 1;
    }
    j
}

/// What `next_shallower` finds: every node before it is nested deeper.
pub proof fn lemma_next_shallower(nodes: Seq<Node>, j: int, depth: int)
    requires
        0 <= j <= nodes.len(),
    ensures
        j <= next_shallower(nodes, j, depth) <= nodes.len(),
        forall|m: int| j <= m < next_shallower(nodes, j, depth) ==> nodes[m].depth > depth,
        next_shallower(nodes, j, depth) < nodes.len() ==> nodes[next_shallower(
            nodes,
            j,
            depth,
        )].depth <= depth,
    decreases nodes.len() - j,
{
    if j < nodes.len() && nodes[j].depth > depth {
        lemma_next_shallower(nodes, j + 1, depth);
    }
}

/// Behind any number of nodes of a part, no end tag was misplaced.
pub proof fn lemma_stack_some(src: Seq<u8>, nodes: Seq<Node>, k: int)
    requires
        wf_nodes(src, nodes),
        0 <= k <= nodes.len(),
    ensures
        open_stack(src, nodes, k) is Some,
{
    if open_stack(src, nodes, k) is None {
        lemma_open_stack_none(src, nodes, k, nodes.len() as int);
    }
}

/// A start tag stays open as long as every node behind it is nested
/// deeper than it.
pub proof fn lemma_stays_open(src: Seq<u8>, nodes: Seq<Node>, j: int, k: int)
    requires
        wf_nodes(src, nodes),
        0 <= j < k <= nodes.len(),
        nodes[j].kind == NodeKind::Open,
        forall|m: int| j < m < k ==> nodes[m].depth > nodes[j].depth,
    ensures
        open_stack(src, nodes, k) matches Some(st) && st.len() >= nodes[j].depth + 1,
    decreases k - j,
{
    lemma_stack_some(src, nodes, k);
    lemma_stack_some(src, nodes, k - 1);
    assert(node_fits(src, nodes, k - 1));
    if k > j + 1 {
        lemma_stays_open(src, nodes, j, k - 1);
        assert(nodes[k - 1].depth > nodes[j].depth);
    }
}

/// Every start tag of a part has its end tag: the content of an element
/// ends at an end tag that is nested as deeply as the start tag.
pub proof fn lemma_close(src: Seq<u8>, nodes: Seq<Node>, j: int)
    requires
        wf_nodes(src, nodes),
        0 <= j < nodes.len(),
        nodes[j].kind == NodeKind::Open,
    ensures
        j < close_of(nodes, j) < nodes.len(),
        nodes[close_of(nodes, j)].kind == NodeKind::Close,
        nodes[close_of(nodes, j)].depth == nodes[j].depth,
        forall|m: int| j < m < close_of(nodes, j) ==> nodes[m].depth > nodes[j].depth,
{
    let d = nodes[j].depth as int;
    let c = close_of(nodes, j);
    lemma_next_shallower(nodes, j + 1, d);
    lemma_stays_open(src, nodes, j, c);
    if c < nodes.len() {
        assert(node_fits(src, nodes, c));
    }
}

/// An element ends before the next element of its depth starts.
pub proof fn lemma_sibling(src: Seq<u8>, nodes: Seq<Node>, i: int, j: int)
    requires
        wf_nodes(src, nodes),
        0 <= i < j < nodes.len(),
        nodes[i].is_element(),
        nodes[j].is_element(),
        nodes[i].depth == nodes[j].depth,
    ensures
        nodes[i].start < element_end(src, nodes, i) <= nodes[j].start,
{
    assert(node_fits(src, nodes, i));
    if nodes[i].kind == NodeKind::Open {
        lemma_close(src, nodes, i);
        let c = close_of(nodes, i);
        assert(node_fits(src, nodes, c));
        lemma_nodes_ascend(src, nodes, i, c);
        lemma_nodes_ascend(src, nodes, c, j);
    } else {
        lemma_nodes_ascend(src, nodes, i, j);
    }
}

/// A child element lies between the start tag and the end tag of its
/// parent.
pub proof fn lemma_child_inside(src: Seq<u8>, nodes: Seq<Node>, p: int, i: int)
    requires
        wf_nodes(src, nodes),
        0 <= p < i < close_of(nodes, p),
        nodes[p].kind == NodeKind::Open,
        p < nodes.len(),
        nodes[i].is_element(),
        nodes[i].depth == nodes[p].depth + 1,
    ensures
        nodes[p].end <= nodes[i].start < element_end(src, nodes, i) <= nodes[close_of(nodes, p)
            - 1].end,
{
    lemma_close(src, nodes, p);
    let e = close_of(nodes, p);
    lemma_nodes_ascend(src, nodes, p, i);
    assert(node_fits(src, nodes, i));
    if nodes[i].kind == NodeKind::Open {
        lemma_close(src, nodes, i);
        let c = close_of(nodes, i);
        lemma_next_shallower(nodes, i + 1, nodes[i].depth as int);
        assert(c < e);
        assert(node_fits(src, nodes, c));
        lemma_nodes_ascend(src, nodes, i, c);
        if c < e - 1 {
            lemma_nodes_ascend(src, nodes, c, e - 1);
        }
    } else {
        if i < e - 1 {
            lemma_nodes_ascend(src, nodes, i, e - 1);
        }
    }
}

/// What `next_element` finds.
pub proof fn lemma_next_element(
    src: Seq<u8>,
    nodes: Seq<Node>,
    j: int,
    to: int,
    depth: int,
    name: Seq<u8>,
)
    requires
        0 <= j <= to <= nodes.len(),
    ensures
        j <= next_element(src, nodes, j, to, depth, name) <= to,
        next_element(src, nodes, j, to, depth, name) < to ==> is_child(
            src,
            nodes[next_element(src, nodes, j, to, depth, name)],
            depth,
            name,
        ),
    decreases to - j,
{
    if j < to && !is_child(src, nodes[j], depth, name) {
        lemma_next_element(src, nodes, j + 1, to, depth, name);
    }
}

/// An element ends behind its own tag and within the source.
pub proof fn lemma_element_end(src: Seq<u8>, nodes: Seq<Node>, i: int)
    requires
        wf_nodes(src, nodes),
        0 <= i < nodes.len(),
        nodes[i].is_element(),
    ensures
        nodes[i].start < nodes[i].end <= element_end(src, nodes, i) <= src.len(),
        nodes[i].kind == NodeKind::Open ==> nodes[close_of(nodes, i) - 1].end <= element_end(
            src,
            nodes,
            i,
        ),
{
    assert(node_fits(src, nodes, i));
    if nodes[i].kind == NodeKind::Open {
        lemma_close(src, nodes, i);
        let c = close_of(nodes, i);
        assert(node_fits(src, nodes, c));
        assert(node_fits(src, nodes, c - 1));
        lemma_nodes_ascend(src, nodes, i, c);
        lemma_nodes_ascend(src, nodes, c - 1, c);
    }
}

/// A later node ends no earlier than an earlier one.
pub proof fn lemma_ends_ascend(src: Seq<u8>, nodes: Seq<Node>, i: int, j: int)
    requires
        wf_nodes(src, nodes),
        0 <= i <= j < nodes.len(),
    ensures
        nodes[i].start < nodes[i].end <= nodes[j].end <= src.len(),
{
    assert(node_fits(src, nodes, i));
    assert(node_fits(src, nodes, j));
    if i < j {
        lemma_nodes_ascend(src, nodes, i, j);
    }
}

} // verus!
