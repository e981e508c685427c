//! Parts: XML documents kept as their source bytes and a list of nodes.
//!
//! A part is never turned into a tree of values. It keeps the bytes it was
//! read from and, beside them, one node for each token: the token's kind,
//! its range in the source, where its name ends and how deeply it is
//! nested. Element tags are the nodes the engine knows how to read; text,
//! comments and every other kind of markup are opaque fragments that are
//! only ever copied. Writing a part out walks the nodes and copies each
//! range, which gives the source back byte for byte.

use vstd::prelude::*;
use vstd::slice::slice_subrange;
use vstd::utf8::valid_utf8;
use crate::bytes::{append_range, bytes_eq, copy_range};
use crate::error::PatchError;
use crate::xml::{next_token, token_at, NodeKind};

verus! {

/// One token of a part.
#[derive(Clone, Copy, Debug, PartialEq, Eq, Structural)]
pub struct Node {
    pub kind: NodeKind,
    /// Where the token starts in the source.
    pub start: usize,
    /// Where the token ends: the start of the next one.
    pub end: usize,
    /// Where the tag's name ends; `start` for a token without a name.
    pub name_end: usize,
    /// How many elements are open around the token. An end tag has the
    /// depth of its start tag.
    pub depth: usize,
}

impl Node {
    /// Whether the node is a start tag or an empty-element tag.
    pub open spec fn is_element(self) -> bool {
        self.kind == NodeKind::Open || self.kind == NodeKind::Empty
    }

    /// Where the tag's name starts.
    pub open spec fn name_start(self) -> int {
        if self.kind == NodeKind::Close {
            self.start + 2
        } else {
            self.start + 1
        }
    }
}

/// The name of a tag.
pub open spec fn tag_name(src: Seq<u8>, n: Node) -> Seq<u8> {
    src.subrange(n.name_start(), n.name_end as int)
}

/// Where node `k` has to start: where the node before it ends.
pub open spec fn start_of(nodes: Seq<Node>, k: int) -> int {
    if k <= 0 {
        0
    } else {
        nodes[k - 1].end as int
    }
}

/// The start tags that are still open behind the first `k` nodes, outermost
/// first, each as the index of its node. `None` once an end tag has met
/// no start tag, or one of another name.
pub open spec fn open_stack(src: Seq<u8>, nodes: Seq<Node>, k: int) -> Option<Seq<int>>
    decreases k,
{
    if k <= 0 {
        Some(Seq::<int>::empty())
    } else {
        match open_stack(src, nodes, k - 1) {
            None => None,
            Some(st) => {
                let n = nodes[k - 1];
                if n.kind == NodeKind::Open {
                    Some(st.push(k - 1))
                } else if n.kind == NodeKind::Close {
                    if st.len() > 0 && tag_name(src, nodes[st.last()]) == tag_name(src, n) {
                        Some(st.drop_last())
                    } else {
                        None
                    }
                } else {
                    Some(st)
                }
            },
        }
    }
}

/// How deeply node `k` is nested.
pub open spec fn node_depth(src: Seq<u8>, nodes: Seq<Node>, k: int) -> int {
    match open_stack(src, nodes, k) {
        Some(st) => if nodes[k].kind == NodeKind::Close {
            st.len() - 1
        } else {
            st.len() as int
        },
        None => 0,
    }
}

/// Node `k` is the token that stands where the node before it ends, and
/// records that token's extent and nesting.
pub open spec fn node_fits(src: Seq<u8>, nodes: Seq<Node>, k: int) -> bool {
    let n = nodes[k];
    &&& n.start == start_of(nodes, k)
    &&& token_at(src, n.start as int) == Some((n.kind, n.end as int, n.name_end as int))
    &&& n.depth == node_depth(src, nodes, k)
    &&& n.start < n.end <= src.len()
    &&& n.start <= n.name_end <= n.end
    &&& n.kind == NodeKind::Close ==> n.start + 2 < n.name_end
    &&& n.is_element() ==> n.start + 1 < n.name_end
}

/// The nodes are the tokens of a prefix of the source, and no end tag
/// among them is misplaced.
pub open spec fn partial_wf(src: Seq<u8>, nodes: Seq<Node>) -> bool {
    &&& forall|k: int| 0 <= k < nodes.len() ==> #[trigger] node_fits(src, nodes, k)
    &&& open_stack(src, nodes, nodes.len() as int) is Some
}

/// The nodes are the tokens of the whole source, and every start tag has
/// its end tag.
pub open spec fn wf_nodes(src: Seq<u8>, nodes: Seq<Node>) -> bool {
    &&& partial_wf(src, nodes)
    &&& start_of(nodes, nodes.len() as int) == src.len()
    &&& open_stack(src, nodes, nodes.len() as int) == Some(Seq::<int>::empty())
}

/// The source is well-formed: it is UTF-8 and can be cut into tokens whose
/// tags nest.
pub open spec fn well_formed(src: Seq<u8>) -> bool {
    valid_utf8(src) && exists|nodes: Seq<Node>| wf_nodes(src, nodes)
}

/// The nodes of a well-formed source.
pub open spec fn nodes_of(src: Seq<u8>) -> Seq<Node> {
    choose|nodes: Seq<Node>| wf_nodes(src, nodes)
}

/// The ranges of the first `k` nodes, one after the other.
pub open spec fn rendered(src: Seq<u8>, nodes: Seq<Node>, k: int) -> Seq<u8>
    decreases k,
{
    if k <= 0 {
        Seq::<u8>::empty()
    } else {
        rendered(src, nodes, k - 1) + src.subrange(
            nodes[k - 1].start as int,
            nodes[k - 1].end as int,
        )
    }
}

/// The indices on a stack, as integers.
pub open spec fn indices(stack: Seq<usize>) -> Seq<int> {
    stack.map_values(|i: usize| i as int)
}

/// A parsed part of the archive.
pub struct Part {
    /// The part's path in the archive.
    pub name: Vec<u8>,
    /// The bytes the part was read from.
    pub src: Vec<u8>,
    /// The tokens of `src`, in order.
    pub nodes: Vec<Node>,
}

impl Part {
    /// The source is UTF-8 and the nodes are those of the source.
    pub open spec fn wf(&self) -> bool {
        valid_utf8(self.src@) && wf_nodes(self.src@, self.nodes@)
    }

    /// Whether the nodes are those of the source. A part that was parsed
    /// always is intact; the question is for a caller who made or changed
    /// one by hand.
    pub fn intact(&self) -> (ok: bool)
        ensures
            ok == self.wf(),
    {
        let read = match parse(self.name.as_slice(), self.src.as_slice()) {
            Ok(p) => p,
            Err(_) => {
                return false;
            },
        };
        proof {
            if self.wf() {
                lemma_wf_unique(self.src@, self.nodes@, read.nodes@);
            }
        }
        if read.nodes.len() != self.nodes.len() {
            return false;
        }
        let mut i: usize = 0;
        while i < self.nodes.len()
            invariant
                i <= self.nodes@.len(),
                read.nodes@.len() == self.nodes@.len(),
                forall|j: int| 0 <= j < i ==> read.nodes@[j] == self.nodes@[j],
                self.wf() ==> read.nodes@ == self.nodes@,
            decreases self.nodes@.len() - i,
        {
            if read.nodes[i] != self.nodes[i] {
                return false;
            }
            i += 1;
        }
        assert(read.nodes@ =~= self.nodes@);
        true
    }
}

/// The open tags behind `k` nodes depend on those nodes alone.
pub proof fn lemma_open_stack_agrees(src: Seq<u8>, a: Seq<Node>, b: Seq<Node>, k: int)
    requires
        0 <= k <= a.len(),
        k <= b.len(),
        forall|i: int| 0 <= i < k ==> a[i] == b[i],
    ensures
        open_stack(src, a, k) == open_stack(src, b, k),
    decreases k,
{
    if k > 0 {
        lemma_open_stack_agrees(src, a, b, k - 1);
        match open_stack(src, a, k - 1) {
            Some(st) => {
                lemma_open_stack_bound(src, a, k - 1);
                if st.len() > 0 {
                    assert(a[st.last()] == b[st.last()]);
                }
            },
            None => {},
        }
    }
}

/// Every index on the stack is that of an earlier start tag.
pub proof fn lemma_open_stack_bound(src: Seq<u8>, nodes: Seq<Node>, k: int)
    requires
        0 <= k <= nodes.len(),
    ensures
        open_stack(src, nodes, k) matches Some(st) ==> forall|i: int|
            0 <= i < st.len() ==> 0 <= (#[trigger] st[i]) < k && nodes[st[i]].kind
                == NodeKind::Open,
    decreases k,
{
    if k > 0 {
        lemma_open_stack_bound(src, nodes, k - 1);
    }
}

/// Once an end tag is misplaced, it stays so.
pub proof fn lemma_open_stack_none(src: Seq<u8>, nodes: Seq<Node>, j: int, k: int)
    requires
        0 <= j <= k,
        open_stack(src, nodes, j) is None,
    ensures
        open_stack(src, nodes, k) is None,
    decreases k - j,
{
    if j < k {
        lemma_open_stack_none(src, nodes, j, k - 1);
    }
}

/// A prefix of the tokens of a prefix is one as well.
pub proof fn lemma_partial_prefix(src: Seq<u8>, nodes: Seq<Node>, k: int)
    requires
        partial_wf(src, nodes),
        0 <= k <= nodes.len(),
    ensures
        partial_wf(src, nodes.subrange(0, k)),
        open_stack(src, nodes.subrange(0, k), k) == open_stack(src, nodes, k),
{
    let p = nodes.subrange(0, k);
    lemma_open_stack_agrees(src, p, nodes, k);
    if open_stack(src, nodes, k) is None {
        lemma_open_stack_none(src, nodes, k, nodes.len() as int);
    }
    assert forall|i: int| 0 <= i < p.len() implies #[trigger] node_fits(src, p, i) by {
        assert(node_fits(src, nodes, i));
        lemma_open_stack_agrees(src, p, nodes, i);
        assert(p[i] == nodes[i]);
        if i > 0 {
            assert(p[i - 1] == nodes[i - 1]);
        }
    }
}

/// The tokens of a source are forced one by one: the tokens of any prefix
/// are the first nodes of the whole.
pub proof fn lemma_agree(src: Seq<u8>, whole: Seq<Node>, nodes: Seq<Node>)
    requires
        wf_nodes(src, whole),
        partial_wf(src, nodes),
    ensures
        nodes.len() <= whole.len(),
        whole.subrange(0, nodes.len() as int) == nodes,
    decreases nodes.len(),
{
    if nodes.len() == 0 {
        assert(whole.subrange(0, 0) =~= nodes);
    } else {
        let k = nodes.len() - 1;
        let p = nodes.subrange(0, k);
        lemma_partial_prefix(src, nodes, k);
        lemma_agree(src, whole, p);
        assert(node_fits(src, nodes, k));
        assert forall|i: int| 0 <= i < k implies whole[i] == nodes[i] by {
            assert(whole.subrange(0, k)[i] == p[i]);
        }
        assert(start_of(whole, k) == start_of(nodes, k));
        assert(whole.len() > k);
        assert(node_fits(src, whole, k));
        lemma_open_stack_agrees(src, whole, nodes, k);
        assert(whole[k] == nodes[k]);
        assert(whole.subrange(0, nodes.len() as int) =~= nodes);
    }
}

/// A source has at most one list of nodes.
pub proof fn lemma_wf_unique(src: Seq<u8>, a: Seq<Node>, b: Seq<Node>)
    requires
        wf_nodes(src, a),
        wf_nodes(src, b),
    ensures
        a == b,
{
    lemma_agree(src, a, b);
    lemma_agree(src, b, a);
    assert(a.subrange(0, a.len() as int) =~= a);
}

/// Behind the tokens of a prefix that stops short of the end, the whole
/// has a further node, and that node is the token that stands there.
pub proof fn lemma_forced(src: Seq<u8>, whole: Seq<Node>, nodes: Seq<Node>)
    requires
        wf_nodes(src, whole),
        partial_wf(src, nodes),
        start_of(nodes, nodes.len() as int) < src.len(),
    ensures
        whole.len() > nodes.len(),
        forall|i: int| 0 <= i < nodes.len() ==> whole[i] == nodes[i],
        node_fits(src, whole, nodes.len() as int),
        whole[nodes.len() as int].start == start_of(nodes, nodes.len() as int),
        open_stack(src, whole, nodes.len() as int) == open_stack(
            src,
            nodes,
            nodes.len() as int,
        ),
        open_stack(src, whole, nodes.len() as int + 1) is Some,
{
    let k = nodes.len() as int;
    lemma_agree(src, whole, nodes);
    assert forall|i: int| 0 <= i < k implies whole[i] == nodes[i] by {
        assert(whole.subrange(0, k)[i] == nodes[i]);
    }
    assert(start_of(whole, k) == start_of(nodes, k));
    assert(whole.len() != k);
    assert(node_fits(src, whole, k));
    lemma_open_stack_agrees(src, whole, nodes, k);
    if open_stack(src, whole, k + 1) is None {
        lemma_open_stack_none(src, whole, k + 1, whole.len() as int);
    }
}

/// One more token behind the tokens of a prefix gives the tokens of a
/// longer prefix.
pub proof fn lemma_extend(src: Seq<u8>, nodes: Seq<Node>, n: Node)
    requires
        partial_wf(src, nodes),
        node_fits(src, nodes.push(n), nodes.len() as int),
        open_stack(src, nodes.push(n), nodes.len() as int + 1) is Some,
    ensures
        partial_wf(src, nodes.push(n)),
{
    let more = nodes.push(n);
    assert forall|i: int| 0 <= i < more.len() implies #[trigger] node_fits(src, more, i) by {
        if i < nodes.len() {
            assert(node_fits(src, nodes, i));
            lemma_open_stack_agrees(src, more, nodes, i);
            assert(more[i] == nodes[i]);
            if i > 0 {
                assert(more[i - 1] == nodes[i - 1]);
            }
        }
    }
}

/// No more tags are open behind `k` nodes than there are nodes.
pub proof fn lemma_open_stack_len(src: Seq<u8>, nodes: Seq<Node>, k: int)
    requires
        0 <= k,
    ensures
        open_stack(src, nodes, k) matches Some(st) ==> st.len() <= k,
    decreases k,
{
    if k > 0 {
        lemma_open_stack_len(src, nodes, k - 1);
    }
}

/// A node is nested no deeper than its index.
pub proof fn lemma_depth_bound(src: Seq<u8>, nodes: Seq<Node>, k: int)
    requires
        partial_wf(src, nodes),
        0 <= k < nodes.len(),
    ensures
        nodes[k].depth <= k,
{
    assert(node_fits(src, nodes, k));
    lemma_open_stack_len(src, nodes, k);
}

/// Nodes stand in the source in the order of the list.
pub proof fn lemma_nodes_ascend(src: Seq<u8>, nodes: Seq<Node>, i: int, j: int)
    requires
        partial_wf(src, nodes),
        0 <= i < j < nodes.len(),
    ensures
        nodes[i].end <= nodes[j].start,
        nodes[i].end < nodes[j].end,
    decreases j - i,
{
    assert(node_fits(src, nodes, j));
    assert(node_fits(src, nodes, j - 1));
    if i < j - 1 {
        lemma_nodes_ascend(src, nodes, i, j - 1);
    }
}

/// The ranges of the tokens of a prefix add up to that prefix.
pub proof fn lemma_rendered(src: Seq<u8>, nodes: Seq<Node>, k: int)
    requires
        partial_wf(src, nodes),
        0 <= k <= nodes.len(),
    ensures
        0 <= start_of(nodes, k) <= src.len(),
        rendered(src, nodes, k) == src.subrange(0, start_of(nodes, k)),
    decreases k,
{
    if k > 0 {
        lemma_rendered(src, nodes, k - 1);
        assert(node_fits(src, nodes, k - 1));
        assert(rendered(src, nodes, k) =~= src.subrange(0, start_of(nodes, k)));
    } else {
        assert(rendered(src, nodes, k) =~= src.subrange(0, 0));
    }
}

/// Writing out the nodes of a parsed source gives the source back.
pub proof fn lemma_rendered_is_source(src: Seq<u8>)
    requires
        well_formed(src),
    ensures
        rendered(src, nodes_of(src), nodes_of(src).len() as int) == src,
{
    let nodes = nodes_of(src);
    lemma_rendered(src, nodes, nodes.len() as int);
    assert(src.subrange(0, src.len() as int) =~= src);
}

/// `std::str::from_utf8` succeeds on exactly the byte strings that are
/// valid UTF-8.
#[verifier::external_body]
pub(crate) fn is_utf8(bytes: &[u8]) -> (ok: bool)
    ensures
        ok == valid_utf8(bytes@),
{
    std::str::from_utf8(bytes).is_ok()
}

/// Reads a part. The source is kept as it is; `MalformedXml` is returned
/// only for a source that is not UTF-8, holds markup that is never closed,
/// or whose tags do not nest.
pub fn parse(name: &[u8], bytes: &[u8]) -> (outcome: Result<Part, PatchError>)
    ensures
        match outcome {
            Ok(part) => {
                &&& well_formed(bytes@)
                &&& part.wf()
                &&& part.name@ == name@
                &&& part.src@ == bytes@
                &&& part.nodes@ == nodes_of(bytes@)
            },
            Err(e) => e == PatchError::MalformedXml && !well_formed(bytes@),
        },
{
    if !is_utf8(bytes) {
        return Err(PatchError::MalformedXml);
    }
    let n: usize = bytes.len();
    let mut nodes: Vec<Node> = Vec::new();
    let mut stack: Vec<usize> = Vec::new();
    let mut pos: usize = 0;
    while pos < n
        invariant
            n == bytes@.len(),
            pos <= n,
            pos == start_of(nodes@, nodes.len() as int),
            partial_wf(bytes@, nodes@),
            open_stack(bytes@, nodes@, nodes.len() as int) == Some(indices(stack@)),
        decreases n - pos,
    {
        let k: usize = nodes.len();
        let ghost old_nodes = nodes@;
        proof {
            lemma_open_stack_bound(bytes@, nodes@, k as int);
        }
        let token = next_token(bytes, pos);
        let (kind, end, name_end) = match token {
            Some(t) => t,
            None => {
                proof {
                    assert forall|m: Seq<Node>| wf_nodes(bytes@, m) implies false by {
                        lemma_forced(bytes@, m, old_nodes);
                    }
                }
                return Err(PatchError::MalformedXml);
            },
        };
        let mut depth: usize = stack.len();
        let ghost old_stack = stack@;
        if kind == NodeKind::Open {
            stack.push(k);
            assert(indices(stack@) =~= indices(old_stack).push(k as int));
        } else if kind == NodeKind::Close {
            if stack.len() == 0 {
                proof {
                    assert forall|m: Seq<Node>| wf_nodes(bytes@, m) implies false by {
                        lemma_forced(bytes@, m, old_nodes);
                    }
                }
                return Err(PatchError::MalformedXml);
            }
            let top: usize = stack[stack.len() - 1];
            assert(indices(stack@)[stack.len() - 1] == top);
            let open: Node = nodes[top];
            assert(node_fits(bytes@, old_nodes, top as int));
            let same = bytes_eq(
                slice_subrange(bytes, open.start + 1, open.name_end),
                slice_subrange(bytes, pos + 2, name_end),
            );
            if !same {
                proof {
                    assert forall|m: Seq<Node>| wf_nodes(bytes@, m) implies false by {
                        lemma_forced(bytes@, m, old_nodes);
                        assert(m[top as int] == old_nodes[top as int]);
                    }
                }
                return Err(PatchError::MalformedXml);
            }
            stack.pop();
            assert(indices(stack@) =~= indices(old_stack).drop_last());
            depth = stack.len();
        }
        let node = Node { kind, start: pos, end, name_end, depth };
        nodes.push(node);
        proof {
            let more = old_nodes.push(node);
            assert(nodes@ == more);
            lemma_open_stack_agrees(bytes@, more, old_nodes, k as int);
            assert(more[k as int] == node);
            if k > 0 {
                assert(more[k - 1] == old_nodes[k - 1]);
            }
            if kind == NodeKind::Close {
                let top = indices(old_stack).last();
                assert(more[top] == old_nodes[top]);
            }
            assert(open_stack(bytes@, more, k + 1) == Some(indices(stack@)));
            assert(node_fits(bytes@, more, k as int));
            lemma_extend(bytes@, old_nodes, node);
        }
        pos = end;
    }
    if stack.len() != 0 {
        proof {
            assert forall|m: Seq<Node>| wf_nodes(bytes@, m) implies false by {
                lemma_agree(bytes@, m, nodes@);
                let k = nodes@.len() as int;
                assert forall|i: int| 0 <= i < k implies m[i] == nodes@[i] by {
                    assert(m.subrange(0, k)[i] == nodes@[i]);
                }
                if m.len() > k {
                    assert(node_fits(bytes@, m, k));
                    assert(start_of(m, k) == start_of(nodes@, k));
                } else {
                    assert(m =~= nodes@);
                    assert(indices(stack@).len() == stack@.len());
                }
            }
        }
        return Err(PatchError::MalformedXml);
    }
    proof {
        assert(indices(stack@) =~= Seq::<int>::empty());
        assert(wf_nodes(bytes@, nodes@));
        lemma_wf_unique(bytes@, nodes@, nodes_of(bytes@));
    }
    let part = Part {
        name: copy_range(name, 0, name.len()),
        src: copy_range(bytes, 0, bytes.len()),
        nodes,
    };
    assert(part.name@ =~= name@);
    assert(part.src@ =~= bytes@);
    Ok(part)
}

/// Writes a part out: the range of each node, in order. The result is the
/// source the part was read from.
pub fn serialize(part: &Part) -> (out: Vec<u8>)
    requires
        part.wf(),
    ensures
        out@ == rendered(part.src@, part.nodes@, part.nodes@.len() as int),
        out@ == part.src@,
{
    let mut out: Vec<u8> = Vec::new();
    let mut k: usize = 0;
    while k < part.nodes.len()
        invariant
            k <= part.nodes.len(),
            part.wf(),
            out@ == rendered(part.src@, part.nodes@, k as int),
        decreases part.nodes.len() - k,
    {
        let node = part.nodes[k];
        assert(node_fits(part.src@, part.nodes@, k as int));
        append_range(&mut out, part.src.as_slice(), node.start, node.end);
        k += 1;
    }
    proof {
        lemma_rendered(part.src@, part.nodes@, part.nodes@.len() as int);
        assert(part.src@.subrange(0, part.src@.len() as int) =~= part.src@);
    }
    out
}

} // verus!
