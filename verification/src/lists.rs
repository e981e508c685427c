//! The lists of a table part: shared strings, fonts, fills, borders,
//! number formats and cell formats.
//!
//! Each list is an element whose children are the entries; an entry's id is
//! its place among them. Entries are read as the text of their elements and
//! are never rewritten. A new entry is put behind the last one, and the
//! attribute that counts the entries is brought up to date.

use vstd::prelude::*;
use crate::attrs::{attr_range, attr_slot, find_attr, lemma_attr_range, open_up, opened};
use crate::bytes::{append, append_lit, copy_range, decimal, lit, push_decimal};
use crate::error::PatchError;
use crate::part::{lemma_depth_bound, lemma_nodes_ascend, node_fits, wf_nodes, Node, Part};
use crate::plan::Section;
use crate::splice::{
    bytes_of, insert_at, insertion, lemma_within_ordered, lemma_within_push, made, make, ordered,
    splice_views, views_of, within, Splice, SpliceView,
};
use crate::tables::rows;
use crate::tree::{
    close_index, close_of, element_end, element_end_at, find_element, lemma_close,
    lemma_next_element, next_element,
};
use crate::xml::NodeKind;

verus! {

/// The text of each element at `depth` among the nodes `from..j`, in order.
pub open spec fn child_texts(src: Seq<u8>, nodes: Seq<Node>, from: int, j: int, depth: int) -> Seq<
    Seq<u8>,
>
    decreases j - from,
{
    if j <= from {
        Seq::<Seq<u8>>::empty()
    } else {
        let before = child_texts(src, nodes, from, j - 1, depth);
        let n = nodes[j - 1];
        if n.is_element() && n.depth == depth {
            before.push(src.subrange(n.start as int, element_end(src, nodes, j - 1)))
        } else {
            before
        }
    }
}

/// The entries of the list that starts at node `p`.
pub open spec fn entries_at(src: Seq<u8>, nodes: Seq<Node>, p: int) -> Seq<Seq<u8>> {
    child_texts(src, nodes, p + 1, close_of(nodes, p), nodes[p].depth + 1)
}

/// The entries of the list called `name` at `depth`, if the part has it.
pub open spec fn list_entries(src: Seq<u8>, nodes: Seq<Node>, name: Seq<u8>, depth: int) -> Option<
    Seq<Seq<u8>>,
> {
    let p = next_element(src, nodes, 0, nodes.len() as int, depth, name);
    if p >= nodes.len() {
        None
    } else {
        Some(entries_at(src, nodes, p))
    }
}

/// The element a section's entries stand in.
pub open spec fn section_name(section: Section) -> Seq<u8> {
    match section {
        Section::Strings => lit("sst"),
        Section::NumberFormats => lit("numFmts"),
        Section::Fonts => lit("fonts"),
        Section::Fills => lit("fills"),
        Section::Borders => lit("borders"),
        Section::CellFormats => lit("cellXfs"),
    }
}

/// How deeply that element is nested: the string list is the root of its
/// part, the others are children of the style sheet.
pub open spec fn section_depth(section: Section) -> int {
    match section {
        Section::Strings => 0,
        _ => 1,
    }
}

/// The attribute that counts a section's entries.
pub open spec fn section_counter(section: Section) -> Seq<u8> {
    match section {
        Section::Strings => lit("uniqueCount"),
        _ => lit("count"),
    }
}

/// The splices that put a new entry behind the entries of the list that
/// starts at node `p`, and write the new number of entries into the
/// counting attribute where the list has one.
pub open spec fn append_at(
    src: Seq<u8>,
    nodes: Seq<Node>,
    p: int,
    section: Section,
    xml: Seq<u8>,
) -> Seq<SpliceView> {
    let n = nodes[p];
    let count = decimal((entries_at(src, nodes, p).len() + 1) as nat);
    let head = match attr_range(src, n, section_counter(section)) {
        Some((a, b)) => seq![SpliceView { start: a, end: b, text: count }],
        None => Seq::<SpliceView>::empty(),
    };
    if n.kind == NodeKind::Empty {
        head.push(opened(n, xml, section_name(section)))
    } else {
        head.push(insertion(nodes[close_of(nodes, p) - 1].end as int, xml))
    }
}

/// A new list of number formats with one entry.
pub open spec fn new_list_xml(xml: Seq<u8>) -> Seq<u8> {
    lit("<numFmts count=\"1\">") + xml + lit("</numFmts>")
}

/// The splices that append an entry to a section of a table part. The
/// list of number formats is created as the first child of the root where
/// the part has none; any other list that is missing is refused with
/// `UnsupportedFeature`.
pub open spec fn append_plan(
    src: Seq<u8>,
    nodes: Seq<Node>,
    section: Section,
    xml: Seq<u8>,
) -> Result<Seq<SpliceView>, PatchError> {
    let all = nodes.len() as int;
    let p = next_element(src, nodes, 0, all, section_depth(section), section_name(section));
    let root = next_element(src, nodes, 0, all, 0, lit("styleSheet"));
    if p < all {
        Ok(append_at(src, nodes, p, section, xml))
    } else if section == Section::NumberFormats && root < all && nodes[root].kind
        == NodeKind::Open {
        Ok(seq![insertion(nodes[root].end as int, new_list_xml(xml))])
    } else {
        Err(PatchError::UnsupportedFeature)
    }
}

/// The splices of an append are in order: they can always be made.
pub proof fn lemma_append_in_order(src: Seq<u8>, nodes: Seq<Node>, section: Section, xml: Seq<u8>)
    requires
        wf_nodes(src, nodes),
    ensures
        append_plan(src, nodes, section, xml) matches Ok(s) ==> ordered(s, src.len() as int),
{
    let all = nodes.len() as int;
    let p = next_element(src, nodes, 0, all, section_depth(section), section_name(section));
    let root = next_element(src, nodes, 0, all, 0, lit("styleSheet"));
    lemma_next_element(src, nodes, 0, all, section_depth(section), section_name(section));
    lemma_next_element(src, nodes, 0, all, 0, lit("styleSheet"));
    if p < all {
        let n = nodes[p];
        lemma_attr_range(src, nodes, p, section_counter(section));
        let count = decimal((entries_at(src, nodes, p).len() + 1) as nat);
        let head = match attr_range(src, n, section_counter(section)) {
            Some((a, b)) => seq![SpliceView { start: a, end: b, text: count }],
            None => Seq::<SpliceView>::empty(),
        };
        assert(within(head, n.start as int, attr_slot(n)));
        if n.kind == NodeKind::Empty {
            let x = opened(n, xml, section_name(section));
            lemma_within_push(head, n.start as int, attr_slot(n), x, n.end as int);
            lemma_within_ordered(head.push(x), n.start as int, n.end as int, src.len() as int);
        } else {
            lemma_close(src, nodes, p);
            let e = close_of(nodes, p);
            assert(node_fits(src, nodes, e - 1));
            if p < e - 1 {
                lemma_nodes_ascend(src, nodes, p, e - 1);
            }
            let last = nodes[e - 1].end as int;
            let x = insertion(last, xml);
            lemma_within_push(head, n.start as int, attr_slot(n), x, last);
            lemma_within_ordered(head.push(x), n.start as int, last, src.len() as int);
        }
    } else if root < all {
        assert(node_fits(src, nodes, root));
    }
}

/// The element a section's entries stand in.
pub fn name_of(section: Section) -> (name: &'static str)
    ensures
        lit(name) == section_name(section),
{
    match section {
        Section::Strings => "sst",
        Section::NumberFormats => "numFmts",
        Section::Fonts => "fonts",
        Section::Fills => "fills",
        Section::Borders => "borders",
        Section::CellFormats => "cellXfs",
    }
}

/// How deeply a section's element is nested.
pub fn depth_of(section: Section) -> (depth: usize)
    ensures
        depth == section_depth(section),
{
    match section {
        Section::Strings => 0,
        _ => 1,
    }
}

/// The attribute that counts a section's entries.
pub fn counter_of(section: Section) -> (name: &'static str)
    ensures
        lit(name) == section_counter(section),
{
    match section {
        Section::Strings => "uniqueCount",
        _ => "count",
    }
}

/// Reads the entries of the list that starts at node `p`.
pub fn read_entries(part: &Part, p: usize) -> (entries: Vec<Vec<u8>>)
    requires
        part.wf(),
        p < part.nodes@.len(),
    ensures
        rows(entries@) == entries_at(part.src@, part.nodes@, p as int),
        entries@.len() < part.nodes@.len(),
{
    proof {
        lemma_depth_bound(part.src@, part.nodes@, p as int);
    }
    let n: usize = part.nodes.len();
    let depth: usize = part.nodes[p].depth + 1;
    let from: usize = p + 1;
    let to = close_index(part, p);
    let mut entries: Vec<Vec<u8>> = Vec::new();
    let mut j: usize = from;
    assert(rows(entries@) =~= Seq::<Seq<u8>>::empty());
    while j < to
        invariant
            part.wf(),
            from <= j <= to <= part.nodes@.len(),
            entries@.len() <= j - from,
            rows(entries@) == child_texts(
                part.src@,
                part.nodes@,
                from as int,
                j as int,
                depth as int,
            ),
        decreases to - j,
    {
        let node = part.nodes[j];
        assert(node_fits(part.src@, part.nodes@, j as int));
        let element = match node.kind {
            NodeKind::Open | NodeKind::Empty => node.depth == depth,
            _ => false,
        };
        if element {
            let end = element_end_at(part, j);
            let ghost before = rows(entries@);
            let text = copy_range(part.src.as_slice(), node.start, end);
            entries.push(text);
            assert(rows(entries@) =~= before.push(text@));
        }
        j += 1;
    }
    entries
}

/// Reads the entries of a section, if the part has that list.
pub fn read_list(part: &Part, section: Section) -> (entries: Option<Vec<Vec<u8>>>)
    requires
        part.wf(),
    ensures
        match entries {
            Some(e) => list_entries(
                part.src@,
                part.nodes@,
                section_name(section),
                section_depth(section),
            ) == Some(rows(e@)),
            None => list_entries(
                part.src@,
                part.nodes@,
                section_name(section),
                section_depth(section),
            ) is None,
        },
{
    let n: usize = part.nodes.len();
    let p = find_element(part, 0, n, depth_of(section), name_of(section));
    if p >= n {
        None
    } else {
        Some(read_entries(part, p))
    }
}

/// Names the splices that append an entry to a section.
pub fn plan_append(part: &Part, section: Section, xml: &[u8]) -> (outcome: Result<
    Vec<Splice>,
    PatchError,
>)
    requires
        part.wf(),
    ensures
        views_of(outcome) == append_plan(part.src@, part.nodes@, section, xml@),
{
    let n: usize = part.nodes.len();
    let src = part.src.as_slice();
    let name = name_of(section);
    let p = find_element(part, 0, n, depth_of(section), name);
    let root = find_element(part, 0, n, 0, "styleSheet");
    let mut out: Vec<Splice> = Vec::new();
    assert(splice_views(out@) =~= Seq::<SpliceView>::empty());
    if p < n {
        let node = part.nodes[p];
        assert(node_fits(part.src@, part.nodes@, p as int));
        let entries = read_entries(part, p);
        match find_attr(src, node, counter_of(section).as_bytes()) {
            Some((a, b)) => {
                let mut count: Vec<u8> = Vec::new();
                assert(rows(entries@).len() == entries@.len());
                push_decimal(&mut count, (entries.len() + 1) as u64);
                assert(count@ =~= decimal((entries@.len() + 1) as nat));
                let splice = Splice { start: a, end: b, text: count };
                out.push(splice);
                assert(splice_views(out@) =~= seq![splice@]);
            },
            None => {},
        }
        let ghost head = splice_views(out@);
        let splice = match node.kind {
            NodeKind::Empty => open_up(node, xml, name),
            _ => {
                let e = close_index(part, p);
                insert_at(part.nodes[e - 1].end, xml)
            },
        };
        out.push(splice);
        assert(splice_views(out@) =~= head.push(splice@));
        Ok(out)
    } else if section == Section::NumberFormats && root < n && part.nodes[root].kind
        == NodeKind::Open {
        let mut text: Vec<u8> = Vec::new();
        append_lit(&mut text, "<numFmts count=\"1\">");
        append(&mut text, xml);
        append_lit(&mut text, "</numFmts>");
        assert(text@ =~= new_list_xml(xml@));
        let splice = insert_at(part.nodes[root].end, text.as_slice());
        out.push(splice);
        assert(splice_views(out@) =~= seq![splice@]);
        Ok(out)
    } else {
        Err(PatchError::UnsupportedFeature)
    }
}

/// Appends an entry to a section of a table part and returns the part's
/// new bytes. The entries that were there keep their text and their ids.
pub fn append_entry(part: &Part, section: Section, xml: &[u8]) -> (outcome: Result<
    Vec<u8>,
    PatchError,
>)
    requires
        part.wf(),
    ensures
        bytes_of(outcome) == made(part.src@, append_plan(part.src@, part.nodes@, section, xml@)),
{
    proof {
        lemma_append_in_order(part.src@, part.nodes@, section, xml@);
    }
    make(part.src.as_slice(), plan_append(part, section, xml))
}

} // verus!
