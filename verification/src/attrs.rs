//! Attributes of a tag, and the escaping of text put into XML.

use vstd::prelude::*;
use vstd::slice::slice_subrange;
use crate::bytes::{append, append_lit, bytes_eq, copy_range, lit};
use crate::part::{node_fits, wf_nodes, Node};
use crate::splice::{Splice, SpliceView};
use crate::xml::{
    lemma_next_byte, lemma_tag_close, name_end, next_byte, next_non_space, scan_byte, scan_name,
    scan_space, NodeKind, APOS, EQUALS, QUOTE,
};

verus! {

/// The range of the value of the first attribute called `name` among the
/// attributes written from `i` on, in a tag that ends at `end`. An
/// attribute is a name, `=`, and a value between two quotation marks of one
/// kind, with white space allowed around the `=`. `None` if the tag has no
/// such attribute or what stands before it is not written this way.
pub open spec fn attr_from(src: Seq<u8>, i: int, end: int, name: Seq<u8>) -> Option<(int, int)>
    decreases end - i,
{
    let a = next_non_space(src, i);
    let b = name_end(src, a);
    let c = next_non_space(src, b);
    let d = next_non_space(src, c + 1);
    let e = next_byte(src, d + 1, src[d]);
    if !(0 <= i <= a && a < b && b <= c && c < d && d < e && e < end && end <= src.len()) {
        None
    } else if !(src[c] == EQUALS && (src[d] == QUOTE || src[d] == APOS)) {
        None
    } else if src.subrange(a, b) == name {
        Some((d + 1, e))
    } else {
        attr_from(src, e + 1, end, name)
    }
}

/// The range of the value of attribute `name` of a tag.
pub open spec fn attr_range(src: Seq<u8>, n: Node, name: Seq<u8>) -> Option<(int, int)> {
    attr_from(src, n.name_end as int, n.end as int, name)
}

/// The value of attribute `name` of a tag, as it is written.
pub open spec fn attr_value(src: Seq<u8>, n: Node, name: Seq<u8>) -> Option<Seq<u8>> {
    match attr_range(src, n, name) {
        Some((from, to)) => Some(src.subrange(from, to)),
        None => None,
    }
}

/// Finds the value of attribute `name` of a tag.
pub fn find_attr(src: &[u8], node: Node, name: &[u8]) -> (range: Option<(usize, usize)>)
    requires
        node.name_end <= node.end <= src@.len(),
    ensures
        match range {
            Some((from, to)) => attr_range(src@, node, name@) == Some((from as int, to as int))
                && node.name_end < from <= to < node.end,
            None => attr_range(src@, node, name@) is None,
        },
{
    let end: usize = node.end;
    let mut i: usize = node.name_end;
    while i < end
        invariant
            end == node.end,
            node.name_end <= i <= end <= src@.len(),
            attr_range(src@, node, name@) == attr_from(src@, i as int, end as int, name@),
        decreases end - i,
    {
        let a = scan_space(src, i);
        let b = scan_name(src, a);
        let c = scan_space(src, b);
        if !(a < b && c < end && src[c] == EQUALS) {
            return None;
        }
        let d = scan_space(src, c + 1);
        if !(d < end && (src[d] == QUOTE || src[d] == APOS)) {
            return None;
        }
        let e = scan_byte(src, d + 1, src[d]);
        if !(e < end) {
            return None;
        }
        if bytes_eq(slice_subrange(src, a, b), name) {
            return Some((d + 1, e));
        }
        i = e + 1;
    }
    None
}

/// A copy of the value of attribute `name` of a tag.
pub fn read_attr(src: &[u8], node: Node, name: &str) -> (value: Option<Vec<u8>>)
    requires
        node.name_end <= node.end <= src@.len(),
    ensures
        match value {
            Some(v) => attr_value(src@, node, lit(name)) == Some(v@),
            None => attr_value(src@, node, lit(name)) is None,
        },
{
    match find_attr(src, node, name.as_bytes()) {
        Some((from, to)) => Some(copy_range(src, from, to)),
        None => None,
    }
}

/// Where a new attribute is put: before the `>` of a start tag, or before
/// the `/>` of an empty-element tag.
pub open spec fn attr_slot(n: Node) -> int {
    if n.kind == NodeKind::Empty {
        n.end - 2
    } else {
        n.end - 1
    }
}

/// An attribute as it is written behind others: a blank, the name, `=`, and
/// the value between double quotes.
pub open spec fn attr_text(name: Seq<u8>, value: Seq<u8>) -> Seq<u8> {
    seq![32u8] + name + seq![EQUALS, QUOTE] + value + seq![QUOTE]
}

/// Appends an attribute.
pub fn push_attr(out: &mut Vec<u8>, name: &[u8], value: &[u8])
    ensures
        final(out)@ == old(out)@ + attr_text(name@, value@),
{
    out.push(32u8);
    append(out, name);
    out.push(EQUALS);
    out.push(QUOTE);
    append(out, value);
    out.push(QUOTE);
    assert(out@ =~= old(out)@ + attr_text(name@, value@));
}

/// The splice that gives attribute `name` of a tag the value `value`: the
/// old value is replaced where the tag has the attribute, and the attribute
/// is added behind the others where it has not.
pub open spec fn attr_splice(src: Seq<u8>, n: Node, name: Seq<u8>, value: Seq<u8>) -> SpliceView {
    match attr_range(src, n, name) {
        Some((from, to)) => SpliceView { start: from, end: to, text: value },
        None => SpliceView {
            start: attr_slot(n),
            end: attr_slot(n),
            text: attr_text(name, value),
        },
    }
}

/// Makes the splice that gives attribute `name` of a tag the value `value`.
pub fn set_attr(src: &[u8], node: Node, name: &[u8], value: &[u8]) -> (splice: Splice)
    requires
        node.name_end <= node.end <= src@.len(),
        node.start + 2 <= node.end,
    ensures
        splice@ == attr_splice(src@, node, name@, value@),
{
    match find_attr(src, node, name) {
        Some((from, to)) => {
            let mut text: Vec<u8> = Vec::new();
            append(&mut text, value);
            assert(text@ =~= value@);
            Splice { start: from, end: to, text }
        },
        None => {
            let at: usize = match node.kind {
                NodeKind::Empty => node.end - 2,
                _ => node.end - 1,
            };
            let mut text: Vec<u8> = Vec::new();
            push_attr(&mut text, name, value);
            assert(text@ =~= attr_text(name@, value@));
            Splice { start: at, end: at, text }
        },
    }
}

/// The splice that turns an empty-element tag into a start tag, followed by
/// `inner` and the end tag.
pub open spec fn opened(n: Node, inner: Seq<u8>, name: Seq<u8>) -> SpliceView {
    SpliceView {
        start: n.end - 2,
        end: n.end as int,
        text: lit(">") + inner + lit("</") + name + lit(">"),
    }
}

/// Makes the splice that opens an empty-element tag.
pub fn open_up(node: Node, inner: &[u8], name: &str) -> (splice: Splice)
    requires
        node.end >= 2,
    ensures
        splice@ == opened(node, inner@, lit(name)),
{
    let mut text: Vec<u8> = Vec::new();
    append_lit(&mut text, ">");
    append(&mut text, inner);
    append_lit(&mut text, "</");
    append_lit(&mut text, name);
    append_lit(&mut text, ">");
    assert(text@ =~= lit(">") + inner@ + lit("</") + lit(name) + lit(">"));
    Splice { start: node.end - 2, end: node.end, text }
}

/// What stands for one byte of text inside XML: `&`, `<`, `>` and `"` are
/// written as entities, every other byte as itself.
pub open spec fn escaped_byte(b: u8) -> Seq<u8> {
    if b == 38 {
        lit("&amp;")
    } else if b == 60 {
        lit("&lt;")
    } else if b == 62 {
        lit("&gt;")
    } else if b == 34 {
        lit("&quot;")
    } else {
        seq![b]
    }
}

/// Text as it is written inside an element or an attribute value.
pub open spec fn escaped(text: Seq<u8>) -> Seq<u8>
    decreases text.len(),
{
    if text.len() == 0 {
        Seq::<u8>::empty()
    } else {
        escaped(text.drop_last()) + escaped_byte(text.last())
    }
}

/// Appends `text`, escaped.
pub fn push_escaped(out: &mut Vec<u8>, text: &[u8])
    ensures
        final(out)@ == old(out)@ + escaped(text@),
{
    let mut i: usize = 0;
    assert(text@.subrange(0, 0) =~= Seq::<u8>::empty());
    while i < text.len()
        invariant
            i <= text.len(),
            out@ == old(out)@ + escaped(text@.subrange(0, i as int)),
        decreases text.len() - i,
    {
        let b: u8 = text[i];
        let ghost before = out@;
        if b == 38 {
            append_lit(out, "&amp;");
        } else if b == 60 {
            append_lit(out, "&lt;");
        } else if b == 62 {
            append_lit(out, "&gt;");
        } else if b == 34 {
            append_lit(out, "&quot;");
        } else {
            out.push(b);
            assert(out@ =~= before + seq![b]);
        }
        proof {
            let done = text@.subrange(0, i as int);
            let next = text@.subrange(0, i + 1);
            assert(next.drop_last() =~= done);
            assert(next.last() == b);
            assert(out@ =~= old(out)@ + escaped(next));
        }
        i += 1;
    }
    assert(text@.subrange(0, text@.len() as int) =~= text@);
}

/// The value of an attribute lies inside its tag, and ends at a quotation
/// mark.
pub proof fn lemma_attr_from(src: Seq<u8>, i: int, end: int, name: Seq<u8>)
    requires
        0 <= i,
    ensures
        attr_from(src, i, end, name) matches Some((a, b)) ==> i < a <= b < end && end
            <= src.len() && (src[b] == QUOTE || src[b] == APOS),
    decreases end - i,
{
    let a = next_non_space(src, i);
    let b = name_end(src, a);
    let c = next_non_space(src, b);
    let d = next_non_space(src, c + 1);
    let e = next_byte(src, d + 1, src[d]);
    if 0 <= i <= a && a < b && b <= c && c < d && d < e && e < end && end <= src.len() {
        if src[c] == EQUALS && (src[d] == QUOTE || src[d] == APOS) {
            lemma_next_byte(src, d + 1, src[d]);
            if src.subrange(a, b) != name {
                lemma_attr_from(src, e + 1, end, name);
            }
        }
    }
}

/// The value of an attribute of a tag lies inside the tag, before the
/// place where the tag is closed.
pub proof fn lemma_attr_range(src: Seq<u8>, nodes: Seq<Node>, c: int, name: Seq<u8>)
    requires
        wf_nodes(src, nodes),
        0 <= c < nodes.len(),
        nodes[c].is_element(),
    ensures
        attr_range(src, nodes[c], name) matches Some((a, b)) ==> nodes[c].start <= a <= b
            <= attr_slot(nodes[c]),
        nodes[c].start <= attr_slot(nodes[c]) < nodes[c].end <= src.len(),
        2 <= nodes[c].end,
{
    let n = nodes[c];
    assert(node_fits(src, nodes, c));
    lemma_attr_from(src, n.name_end as int, n.end as int, name);
    lemma_tag_close(src, n.name_end as int, 0);
}

/// The splice that sets an attribute of a tag lies inside the tag, before
/// the place where the tag is closed.
pub proof fn lemma_attr_splice(
    src: Seq<u8>,
    nodes: Seq<Node>,
    c: int,
    name: Seq<u8>,
    value: Seq<u8>,
)
    requires
        wf_nodes(src, nodes),
        0 <= c < nodes.len(),
        nodes[c].is_element(),
    ensures
        nodes[c].start <= attr_splice(src, nodes[c], name, value).start <= attr_splice(
            src,
            nodes[c],
            name,
            value,
        ).end <= attr_slot(nodes[c]) < nodes[c].end <= src.len(),
        2 <= nodes[c].end,
{
    lemma_attr_range(src, nodes, c, name);
}

} // verus!
