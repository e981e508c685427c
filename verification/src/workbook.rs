//! The workbook part and its relationships: which sheets a workbook has,
//! where their parts are, and how a sheet is renamed.

use vstd::prelude::*;
use crate::attrs::{
    attr_splice, attr_value, escaped, lemma_attr_splice, push_escaped, read_attr, set_attr,
};
use crate::bytes::{append, append_lit, bytes_eq, copy_range, decimal_u32, lit, parse_decimal};
use crate::error::PatchError;
use crate::part::{node_fits, wf_nodes, Node, Part};
use crate::splice::{bytes_of, made, make, one, ordered, views_of, Splice, SpliceView};
use crate::tree::{
    close_index, close_of, find_element, is_child, lemma_next_element, lemma_next_shallower,
    next_element, node_is,
};

verus! {

/// A sheet as the workbook part declares it.
#[derive(Clone, Debug)]
pub struct SheetRef {
    pub id: u32,
    /// The sheet's name, as the attribute holds it.
    pub name: Vec<u8>,
    /// The id of the relationship that leads to the sheet's part.
    pub rel: Vec<u8>,
}

/// What each declared sheet of a vector is: its id, name and relationship.
pub open spec fn ref_views(sheets: Seq<SheetRef>) -> Seq<(u32, Seq<u8>, Seq<u8>)> {
    Seq::new(sheets.len(), |i: int| (sheets[i].id, sheets[i].name@, sheets[i].rel@))
}

/// The sheets that the `sheet` elements among the nodes `from..j` declare,
/// in order. A declaration without a readable id, a name or a relationship
/// is refused.
pub open spec fn declared_sheets(src: Seq<u8>, nodes: Seq<Node>, from: int, j: int) -> Result<
    Seq<(u32, Seq<u8>, Seq<u8>)>,
    PatchError,
>
    decreases j - from,
{
    if j <= from {
        Ok(Seq::<(u32, Seq<u8>, Seq<u8>)>::empty())
    } else {
        match declared_sheets(src, nodes, from, j - 1) {
            Err(e) => Err(e),
            Ok(s) => {
                let n = nodes[j - 1];
                if is_child(src, n, 2, lit("sheet")) {
                    match (
                        attr_value(src, n, lit("sheetId")),
                        attr_value(src, n, lit("name")),
                        attr_value(src, n, lit("r:id")),
                    ) {
                        (Some(id), Some(name), Some(rel)) => match decimal_u32(id) {
                            Some(i) => Ok(s.push((i, name, rel))),
                            None => Err(PatchError::UnsupportedFeature),
                        },
                        _ => Err(PatchError::UnsupportedFeature),
                    }
                } else {
                    Ok(s)
                }
            },
        }
    }
}

/// The sheets a workbook part declares: those of its `sheets` element, or
/// none if it has no such element.
pub open spec fn workbook_sheets(src: Seq<u8>, nodes: Seq<Node>) -> Result<
    Seq<(u32, Seq<u8>, Seq<u8>)>,
    PatchError,
> {
    let p = next_element(src, nodes, 0, nodes.len() as int, 1, lit("sheets"));
    if p >= nodes.len() {
        Ok(Seq::<(u32, Seq<u8>, Seq<u8>)>::empty())
    } else {
        declared_sheets(src, nodes, p + 1, close_of(nodes, p))
    }
}

/// Whether node `n` is the relationship with id `id`.
pub open spec fn is_relationship(src: Seq<u8>, n: Node, id: Seq<u8>) -> bool {
    is_child(src, n, 1, lit("Relationship")) && attr_value(src, n, lit("Id")) == Some(id)
}

/// The first position at or after `j` that holds the relationship with id
/// `id`, or the number of nodes.
pub open spec fn relationship_at(src: Seq<u8>, nodes: Seq<Node>, id: Seq<u8>, j: int) -> int
    decreases nodes.len() - j,
{
    if 0 <= j < nodes.len() && !is_relationship(src, nodes[j], id) {
        relationship_at(src, nodes, id, j + 1)
    } else {
        j
    }
}

/// The target of the relationship with id `id`.
pub open spec fn target_of(src: Seq<u8>, nodes: Seq<Node>, id: Seq<u8>) -> Option<Seq<u8>> {
    let at = relationship_at(src, nodes, id, 0);
    if at < nodes.len() {
        attr_value(src, nodes[at], lit("Target"))
    } else {
        None
    }
}

/// The path of the part a target of the workbook's relationships names: a
/// target that starts with `/` is a path from the root of the archive, any
/// other is relative to the directory of the workbook part.
pub open spec fn part_path(target: Seq<u8>) -> Seq<u8> {
    if target.len() > 0 && target[0] == 47 {
        target.subrange(1, target.len() as int)
    } else {
        lit("xl/") + target
    }
}

/// Whether node `n` declares the sheet with id `id`.
pub open spec fn declares_sheet(src: Seq<u8>, n: Node, id: u32) -> bool {
    is_child(src, n, 2, lit("sheet")) && (match attr_value(src, n, lit("sheetId")) {
        Some(text) => decimal_u32(text) == Some(id),
        None => false,
    })
}

/// The first position in `j..to` that declares the sheet with id `id`, or
/// `to`.
pub open spec fn sheet_node(src: Seq<u8>, nodes: Seq<Node>, id: u32, j: int, to: int) -> int
    decreases to - j,
{
    if 0 <= j < to && j < nodes.len() && !declares_sheet(src, nodes[j], id) {
        sheet_node(src, nodes, id, j + 1, to)
    } else {
        j
    }
}

/// The splice that gives the sheet with id `id` the name `name`;
/// `UnknownSheet` if the workbook declares no such sheet.
pub open spec fn rename_plan(src: Seq<u8>, nodes: Seq<Node>, id: u32, name: Seq<u8>) -> Result<
    Seq<SpliceView>,
    PatchError,
> {
    let p = next_element(src, nodes, 0, nodes.len() as int, 1, lit("sheets"));
    let to = close_of(nodes, p);
    let at = sheet_node(src, nodes, id, p + 1, to);
    if p < nodes.len() && at < to {
        Ok(seq![attr_splice(src, nodes[at], lit("name"), escaped(name))])
    } else {
        Err(PatchError::UnknownSheet)
    }
}

/// The splice of a renaming lies inside the part: it can always be made.
pub proof fn lemma_rename_in_order(src: Seq<u8>, nodes: Seq<Node>, id: u32, name: Seq<u8>)
    requires
        wf_nodes(src, nodes),
    ensures
        rename_plan(src, nodes, id, name) matches Ok(s) ==> ordered(s, src.len() as int),
{
    let all = nodes.len() as int;
    let p = next_element(src, nodes, 0, all, 1, lit("sheets"));
    lemma_next_element(src, nodes, 0, all, 1, lit("sheets"));
    if p < all {
        lemma_next_shallower(nodes, p + 1, nodes[p].depth as int);
        let to = close_of(nodes, p);
        lemma_sheet_node(src, nodes, id, p + 1, to);
        let at = sheet_node(src, nodes, id, p + 1, to);
        if at < to {
            lemma_attr_splice(src, nodes, at, lit("name"), escaped(name));
        }
    }
}

/// What `sheet_node` finds declares the sheet.
pub proof fn lemma_sheet_node(src: Seq<u8>, nodes: Seq<Node>, id: u32, j: int, to: int)
    requires
        0 <= j <= to <= nodes.len(),
    ensures
        j <= sheet_node(src, nodes, id, j, to) <= to,
        sheet_node(src, nodes, id, j, to) < to ==> declares_sheet(
            src,
            nodes[sheet_node(src, nodes, id, j, to)],
            id,
        ),
    decreases to - j,
{
    if j < to && !declares_sheet(src, nodes[j], id) {
        lemma_sheet_node(src, nodes, id, j + 1, to);
    }
}

/// Reads the sheets a workbook part declares.
pub fn read_sheets(part: &Part) -> (outcome: Result<Vec<SheetRef>, PatchError>)
    requires
        part.wf(),
    ensures
        match outcome {
            Ok(sheets) => workbook_sheets(part.src@, part.nodes@) == Ok::<
                Seq<(u32, Seq<u8>, Seq<u8>)>,
                PatchError,
            >(ref_views(sheets@)),
            Err(e) => workbook_sheets(part.src@, part.nodes@) == Err::<
                Seq<(u32, Seq<u8>, Seq<u8>)>,
                PatchError,
            >(e),
        },
{
    let src = part.src.as_slice();
    let n: usize = part.nodes.len();
    let mut out: Vec<SheetRef> = Vec::new();
    assert(ref_views(out@) =~= Seq::<(u32, Seq<u8>, Seq<u8>)>::empty());
    let p = find_element(part, 0, n, 1, "sheets");
    if p >= n {
        return Ok(out);
    }
    let from: usize = p + 1;
    let to = close_index(part, p);
    let mut failed: bool = false;
    let mut j: usize = from;
    while j < to
        invariant
            part.wf(),
            src@ == part.src@,
            from <= j <= to <= part.nodes@.len(),
            declared_sheets(part.src@, part.nodes@, from as int, j as int) == if failed {
                Err::<Seq<(u32, Seq<u8>, Seq<u8>)>, PatchError>(PatchError::UnsupportedFeature)
            } else {
                Ok::<Seq<(u32, Seq<u8>, Seq<u8>)>, PatchError>(ref_views(out@))
            },
        decreases part.nodes@.len() - j,
    {
        if !failed && node_is(part, j, 2, "sheet".as_bytes()) {
            let node = part.nodes[j];
            assert(node_fits(part.src@, part.nodes@, j as int));
            match (
                read_attr(src, node, "sheetId"),
                read_attr(src, node, "name"),
                read_attr(src, node, "r:id"),
            ) {
                (Some(id), Some(name), Some(rel)) => match parse_decimal(id.as_slice()) {
                    Some(i) => {
                        let ghost before = ref_views(out@);
                        out.push(SheetRef { id: i, name, rel });
                        assert(ref_views(out@) =~= before.push((i, name@, rel@)));
                    },
                    None => {
                        failed = true;
                    },
                },
                _ => {
                    failed = true;
                },
            }
        }
        j += 1;
    }
    if failed {
        Err(PatchError::UnsupportedFeature)
    } else {
        Ok(out)
    }
}

/// Whether node `j` is the relationship with id `id`.
fn relationship_is(part: &Part, j: usize, id: &[u8]) -> (yes: bool)
    requires
        part.wf(),
        j < part.nodes@.len(),
    ensures
        yes == is_relationship(part.src@, part.nodes@[j as int], id@),
{
    if !node_is(part, j, 1, "Relationship".as_bytes()) {
        return false;
    }
    assert(node_fits(part.src@, part.nodes@, j as int));
    match read_attr(part.src.as_slice(), part.nodes[j], "Id") {
        Some(v) => bytes_eq(v.as_slice(), id),
        None => false,
    }
}

/// Reads the target of the relationship with id `id`.
pub fn find_target(part: &Part, id: &[u8]) -> (target: Option<Vec<u8>>)
    requires
        part.wf(),
    ensures
        match target {
            Some(t) => target_of(part.src@, part.nodes@, id@) == Some(t@),
            None => target_of(part.src@, part.nodes@, id@) is None,
        },
{
    let mut j: usize = 0;
    while j < part.nodes.len() && !relationship_is(part, j, id)
        invariant
            part.wf(),
            j <= part.nodes@.len(),
            relationship_at(part.src@, part.nodes@, id@, 0) == relationship_at(
                part.src@,
                part.nodes@,
                id@,
                j as int,
            ),
        decreases part.nodes@.len() - j,
    {
        j += 1;
    }
    if j < part.nodes.len() {
        assert(node_fits(part.src@, part.nodes@, j as int));
        read_attr(part.src.as_slice(), part.nodes[j], "Target")
    } else {
        None
    }
}

/// The path of the part a target names.
pub fn path_of(target: &[u8]) -> (path: Vec<u8>)
    ensures
        path@ == part_path(target@),
{
    if target.len() > 0 && target[0] == 47 {
        copy_range(target, 1, target.len())
    } else {
        let mut path: Vec<u8> = Vec::new();
        append_lit(&mut path, "xl/");
        append(&mut path, target);
        assert(path@ =~= lit("xl/") + target@);
        path
    }
}

/// Whether node `j` declares the sheet with id `id`.
fn sheet_is(part: &Part, j: usize, id: u32) -> (yes: bool)
    requires
        part.wf(),
        j < part.nodes@.len(),
    ensures
        yes == declares_sheet(part.src@, part.nodes@[j as int], id),
{
    if !node_is(part, j, 2, "sheet".as_bytes()) {
        return false;
    }
    assert(node_fits(part.src@, part.nodes@, j as int));
    match read_attr(part.src.as_slice(), part.nodes[j], "sheetId") {
        Some(v) => match parse_decimal(v.as_slice()) {
            Some(i) => i == id,
            None => false,
        },
        None => false,
    }
}

/// Names the splice that renames a sheet.
pub fn plan_rename(part: &Part, id: u32, name: &[u8]) -> (outcome: Result<Vec<Splice>, PatchError>)
    requires
        part.wf(),
    ensures
        views_of(outcome) == rename_plan(part.src@, part.nodes@, id, name@),
{
    let n: usize = part.nodes.len();
    let p = find_element(part, 0, n, 1, "sheets");
    if p >= n {
        return Err(PatchError::UnknownSheet);
    }
    let from: usize = p + 1;
    let to = close_index(part, p);
    let mut j: usize = from;
    while j < to && !sheet_is(part, j, id)
        invariant
            part.wf(),
            from <= j <= to <= part.nodes@.len(),
            sheet_node(part.src@, part.nodes@, id, from as int, to as int) == sheet_node(
                part.src@,
                part.nodes@,
                id,
                j as int,
                to as int,
            ),
        decreases to - j,
    {
        j += 1;
    }
    if j < to {
        assert(node_fits(part.src@, part.nodes@, j as int));
        let mut text: Vec<u8> = Vec::new();
        push_escaped(&mut text, name);
        assert(text@ =~= escaped(name@));
        Ok(one(set_attr(part.src.as_slice(), part.nodes[j], "name".as_bytes(), text.as_slice())))
    } else {
        Err(PatchError::UnknownSheet)
    }
}

/// Gives the sheet with id `id` the name `name` and returns the workbook
/// part's new bytes: the value of the sheet's `name` attribute is the only
/// thing that changes.
pub fn rename_sheet(part: &Part, id: u32, name: &[u8]) -> (outcome: Result<Vec<u8>, PatchError>)
    requires
        part.wf(),
    ensures
        bytes_of(outcome) == made(part.src@, rename_plan(part.src@, part.nodes@, id, name@)),
{
    proof {
        lemma_rename_in_order(part.src@, part.nodes@, id, name@);
    }
    make(part.src.as_slice(), plan_rename(part, id, name))
}

} // verus!
