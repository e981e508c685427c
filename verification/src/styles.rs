//! The cell format table of a style sheet.
//!
//! A cell format is a record of five components. The style sheet keeps
//! fonts, fills and borders in lists of their own and a cell format as the
//! ids of its components; number formats are declared by code. Asking for a
//! format finds or adds each component and then the record that names
//! them, so that formats that agree in every component get one id.

use vstd::prelude::*;
use crate::attrs::{attr_value, escaped, read_attr};
use crate::bytes::{decimal_u32, lit, parse_decimal};
use crate::error::PatchError;
use crate::lists::{list_entries, read_list, section_depth, section_name};
use crate::numfmt::{
    builtin_from, code_position, declares, format_id, format_views, lemma_code_position,
    lemma_code_position_is, lemma_format_keeps_ids, lemma_format_twice, next_id, with_format,
    NumberFormat, NumberFormatTable, BUILTIN_END,
};
use crate::part::{lemma_depth_bound, node_fits, Node, Part};
use crate::plan::Section;
use crate::render::{
    border_xml, fill_xml, font_is_plain, font_xml, render_border, render_fill, render_font,
    render_xf, xf_xml,
};
use crate::style::{Border, BorderStyle, CellFormat, CellFormatView, Fill, Font};
use crate::tables::{
    inserted, lemma_insert_keeps_ids, lemma_insert_twice, lemma_position, position,
    SharedStringTable,
};
use crate::tree::{close_index, close_of, find_element, is_child, next_element, node_is};

verus! {

/// The lists of a style sheet that a cell format draws on.
pub struct StyleTable {
    pub number_formats: NumberFormatTable,
    pub fonts: SharedStringTable,
    pub fills: SharedStringTable,
    pub borders: SharedStringTable,
    /// The cell formats; a style id is a position in this list.
    pub formats: SharedStringTable,
}

/// What a style table holds.
pub struct StyleTableView {
    pub number_formats: Seq<(u32, Seq<u8>)>,
    pub fonts: Seq<Seq<u8>>,
    pub fills: Seq<Seq<u8>>,
    pub borders: Seq<Seq<u8>>,
    pub formats: Seq<Seq<u8>>,
}

impl View for StyleTable {
    type V = StyleTableView;

    open spec fn view(&self) -> StyleTableView {
        StyleTableView {
            number_formats: self.number_formats@,
            fonts: self.fonts@,
            fills: self.fills@,
            borders: self.borders@,
            formats: self.formats@,
        }
    }
}

/// The id of a component: 0, the sheet's own entry, for a component that
/// says nothing, else the id of its text.
pub open spec fn part_id(table: Seq<Seq<u8>>, plain: bool, xml: Seq<u8>) -> int {
    if plain {
        0
    } else {
        position(table, xml)
    }
}

/// A component list after a component was asked for.
pub open spec fn with_part(table: Seq<Seq<u8>>, plain: bool, xml: Seq<u8>) -> Seq<Seq<u8>> {
    if plain {
        table
    } else {
        inserted(table, xml)
    }
}

/// Whether a fill says nothing.
pub open spec fn fill_is_plain(f: Fill) -> bool {
    f.color is None
}

/// Whether a border says nothing.
pub open spec fn border_is_plain(b: Border) -> bool {
    b.style == BorderStyle::NoLine
}

/// The record of a cell format whose number format has the id `num_fmt`.
pub open spec fn record_of(t: StyleTableView, f: CellFormatView, num_fmt: u32) -> Seq<u8> {
    xf_xml(
        num_fmt,
        part_id(t.fonts, font_is_plain(f.font), font_xml(f.font)) as usize,
        part_id(t.fills, fill_is_plain(f.fill), fill_xml(f.fill)) as usize,
        part_id(t.borders, border_is_plain(f.border), border_xml(f.border)) as usize,
        f.alignment,
    )
}

/// The id of a cell format: that of the first record equal to its own, or
/// of a new record. `UnsupportedFeature` if no number format id is left.
pub open spec fn style_id(t: StyleTableView, f: CellFormatView) -> Result<usize, PatchError> {
    match format_id(t.number_formats, f.number_format) {
        Err(e) => Err(e),
        Ok(num_fmt) => Ok(position(t.formats, record_of(t, f, num_fmt)) as usize),
    }
}

/// The table after a cell format was asked for.
pub open spec fn with_style(t: StyleTableView, f: CellFormatView) -> StyleTableView {
    match format_id(t.number_formats, f.number_format) {
        Err(e) => t,
        Ok(num_fmt) => StyleTableView {
            number_formats: with_format(t.number_formats, f.number_format),
            fonts: with_part(t.fonts, font_is_plain(f.font), font_xml(f.font)),
            fills: with_part(t.fills, fill_is_plain(f.fill), fill_xml(f.fill)),
            borders: with_part(t.borders, border_is_plain(f.border), border_xml(f.border)),
            formats: inserted(t.formats, record_of(t, f, num_fmt)),
        },
    }
}

/// The number formats declared by the `numFmt` elements at `depth` among
/// the nodes `from..j`. A declaration without a readable id or without a
/// code is refused.
pub open spec fn declared_formats(
    src: Seq<u8>,
    nodes: Seq<Node>,
    from: int,
    j: int,
    depth: int,
) -> Result<Seq<(u32, Seq<u8>)>, PatchError>
    decreases j - from,
{
    if j <= from {
        Ok(Seq::<(u32, Seq<u8>)>::empty())
    } else {
        match declared_formats(src, nodes, from, j - 1, depth) {
            Err(e) => Err(e),
            Ok(s) => {
                let n = nodes[j - 1];
                if is_child(src, n, depth, lit("numFmt")) {
                    match (
                        attr_value(src, n, lit("numFmtId")),
                        attr_value(src, n, lit("formatCode")),
                    ) {
                        (Some(id), Some(code)) => match decimal_u32(id) {
                            Some(i) => Ok(s.push((i, code))),
                            None => Err(PatchError::UnsupportedFeature),
                        },
                        _ => Err(PatchError::UnsupportedFeature),
                    }
                } else {
                    Ok(s)
                }
            },
        }
    }
}

/// The number formats a style sheet declares; none if it has no list.
pub open spec fn sheet_formats(src: Seq<u8>, nodes: Seq<Node>) -> Result<
    Seq<(u32, Seq<u8>)>,
    PatchError,
> {
    let p = next_element(src, nodes, 0, nodes.len() as int, 1, lit("numFmts"));
    if p >= nodes.len() {
        Ok(Seq::<(u32, Seq<u8>)>::empty())
    } else {
        declared_formats(src, nodes, p + 1, close_of(nodes, p), nodes[p].depth + 1)
    }
}

/// The entries of a list that a style sheet must have.
pub open spec fn required_list(src: Seq<u8>, nodes: Seq<Node>, section: Section) -> Result<
    Seq<Seq<u8>>,
    PatchError,
> {
    match list_entries(src, nodes, section_name(section), section_depth(section)) {
        Some(entries) => Ok(entries),
        None => Err(PatchError::UnsupportedFeature),
    }
}

/// The table a style sheet holds. A sheet without its lists of fonts,
/// fills, borders or cell formats is refused with `UnsupportedFeature`.
pub open spec fn loaded_styles(src: Seq<u8>, nodes: Seq<Node>) -> Result<
    StyleTableView,
    PatchError,
> {
    match (
        sheet_formats(src, nodes),
        required_list(src, nodes, Section::Fonts),
        required_list(src, nodes, Section::Fills),
        required_list(src, nodes, Section::Borders),
        required_list(src, nodes, Section::CellFormats),
    ) {
        (Ok(number_formats), Ok(fonts), Ok(fills), Ok(borders), Ok(formats)) => Ok(
            StyleTableView { number_formats, fonts, fills, borders, formats },
        ),
        (Err(e), _, _, _, _) => Err(e),
        _ => Err(PatchError::UnsupportedFeature),
    }
}

/// Whether a font says nothing.
fn plain_font(f: &Font) -> (plain: bool)
    ensures
        plain == font_is_plain(*f),
{
    !f.bold && !f.italic && f.color.is_none()
}

/// Whether a border says nothing.
fn plain_border(b: &Border) -> (plain: bool)
    ensures
        plain == border_is_plain(*b),
{
    match b.style {
        BorderStyle::NoLine => true,
        _ => false,
    }
}

/// Reads the number formats a style sheet declares.
pub fn read_formats(part: &Part) -> (outcome: Result<Vec<NumberFormat>, PatchError>)
    requires
        part.wf(),
    ensures
        match outcome {
            Ok(f) => sheet_formats(part.src@, part.nodes@) == Ok::<
                Seq<(u32, Seq<u8>)>,
                PatchError,
            >(format_views(f@)),
            Err(e) => sheet_formats(part.src@, part.nodes@) == Err::<
                Seq<(u32, Seq<u8>)>,
                PatchError,
            >(e),
        },
{
    let n: usize = part.nodes.len();
    let src = part.src.as_slice();
    let mut out: Vec<NumberFormat> = Vec::new();
    assert(format_views(out@) =~= Seq::<(u32, Seq<u8>)>::empty());
    let p = find_element(part, 0, n, 1, "numFmts");
    if p >= n {
        return Ok(out);
    }
    proof {
        lemma_depth_bound(part.src@, part.nodes@, p as int);
    }
    let depth: usize = part.nodes[p].depth + 1;
    let from: usize = p + 1;
    let to = close_index(part, p);
    let mut failed: bool = false;
    let mut j: usize = from;
    while j < to
        invariant
            part.wf(),
            src@ == part.src@,
            from <= j <= to <= part.nodes@.len(),
            declared_formats(part.src@, part.nodes@, from as int, j as int, depth as int)
                == if failed {
                Err::<Seq<(u32, Seq<u8>)>, PatchError>(PatchError::UnsupportedFeature)
            } else {
                Ok::<Seq<(u32, Seq<u8>)>, PatchError>(format_views(out@))
            },
        decreases to - j,
    {
        if !failed && node_is(part, j, depth, "numFmt".as_bytes()) {
            let node = part.nodes[j];
            assert(node_fits(part.src@, part.nodes@, j as int));
            match (read_attr(src, node, "numFmtId"), read_attr(src, node, "formatCode")) {
                (Some(id), Some(code)) => match parse_decimal(id.as_slice()) {
                    Some(i) => {
                        let ghost before = format_views(out@);
                        out.push(NumberFormat { id: i, code });
                        assert(format_views(out@) =~= before.push((i, code@)));
                    },
                    None => {
                        failed = true;
                    },
                },
                _ => {
                    failed = true;
                },
            }
        }
        j += 1;
    }
    if failed {
        Err(PatchError::UnsupportedFeature)
    } else {
        Ok(out)
    }
}

/// Reads a list that a style sheet must have.
fn read_required(part: &Part, section: Section) -> (outcome: Result<SharedStringTable, PatchError>)
    requires
        part.wf(),
    ensures
        match outcome {
            Ok(t) => required_list(part.src@, part.nodes@, section) == Ok::<
                Seq<Seq<u8>>,
                PatchError,
            >(t@),
            Err(e) => required_list(part.src@, part.nodes@, section) == Err::<
                Seq<Seq<u8>>,
                PatchError,
            >(e),
        },
{
    match read_list(part, section) {
        Some(entries) => Ok(SharedStringTable::from_entries(entries)),
        None => Err(PatchError::UnsupportedFeature),
    }
}

impl StyleTable {
    /// Reads the table of a style sheet.
    pub fn load(part: &Part) -> (outcome: Result<StyleTable, PatchError>)
        requires
            part.wf(),
        ensures
            match outcome {
                Ok(t) => loaded_styles(part.src@, part.nodes@) == Ok::<
                    StyleTableView,
                    PatchError,
                >(t@),
                Err(e) => loaded_styles(part.src@, part.nodes@) == Err::<
                    StyleTableView,
                    PatchError,
                >(e),
            },
    {
        let number_formats = match read_formats(part) {
            Ok(f) => NumberFormatTable::from_formats(f),
            Err(e) => {
                return Err(e);
            },
        };
        let fonts = read_required(part, Section::Fonts);
        let fills = read_required(part, Section::Fills);
        let borders = read_required(part, Section::Borders);
        let formats = read_required(part, Section::CellFormats);
        match (fonts, fills, borders, formats) {
            (Ok(fonts), Ok(fills), Ok(borders), Ok(formats)) => Ok(
                StyleTable { number_formats, fonts, fills, borders, formats },
            ),
            _ => Err(PatchError::UnsupportedFeature),
        }
    }

    /// A copy of the table.
    pub fn duplicate(&self) -> (copy: Self)
        ensures
            copy@ == self@,
    {
        StyleTable {
            number_formats: self.number_formats.duplicate(),
            fonts: self.fonts.duplicate(),
            fills: self.fills.duplicate(),
            borders: self.borders.duplicate(),
            formats: self.formats.duplicate(),
        }
    }

    /// The number of cell formats.
    pub fn len(&self) -> (n: usize)
        ensures
            n == self@.formats.len(),
    {
        self.formats.len()
    }

    /// The id of a cell format. Its components and its record are added
    /// where the table does not hold them; a format whose record the table
    /// holds gets the id of that record.
    pub fn get_or_insert(&mut self, format: &CellFormat) -> (outcome: Result<usize, PatchError>)
        ensures
            outcome == style_id(old(self)@, format@),
            final(self)@ == with_style(old(self)@, format@),
    {
        let num_fmt = match self.number_formats.get_or_insert(format.number_format.as_slice()) {
            Ok(id) => id,
            Err(e) => {
                return Err(e);
            },
        };
        let font: usize = if plain_font(&format.font) {
            0
        } else {
            let xml = render_font(&format.font);
            self.fonts.get_or_insert(xml.as_slice())
        };
        let fill: usize = if format.fill.color.is_none() {
            0
        } else {
            let xml = render_fill(&format.fill);
            self.fills.get_or_insert(xml.as_slice())
        };
        let border: usize = if plain_border(&format.border) {
            0
        } else {
            let xml = render_border(&format.border);
            self.borders.get_or_insert(xml.as_slice())
        };
        let record = render_xf(num_fmt, font, fill, border, &format.alignment);
        let id = self.formats.get_or_insert(record.as_slice());
        Ok(id)
    }

    /// The record of the cell format with id `id`, as the style sheet
    /// writes it; `InvalidIndex` if no format has that id.
    pub fn resolve(&self, id: usize) -> (outcome: Result<&Vec<u8>, PatchError>)
        ensures
            match outcome {
                Ok(record) => id < self@.formats.len() && record@ == self@.formats[id as int],
                Err(e) => id >= self@.formats.len() && e == PatchError::InvalidIndex,
            },
    {
        self.formats.resolve(id)
    }
}

/// Asking twice for the same cell format gives the same id both times, and
/// the second call leaves the table as the first left it: across the two
/// calls the table gains at most one cell format.
pub proof fn lemma_style_twice(t: StyleTableView, f: CellFormatView)
    ensures
        style_id(with_style(t, f), f) == style_id(t, f),
        with_style(with_style(t, f), f) == with_style(t, f),
        with_style(t, f).formats.len() <= t.formats.len() + 1,
{
    lemma_format_twice(t.number_formats, f.number_format);
    lemma_insert_twice(t.fonts, font_xml(f.font));
    lemma_insert_twice(t.fills, fill_xml(f.fill));
    lemma_insert_twice(t.borders, border_xml(f.border));
    match format_id(t.number_formats, f.number_format) {
        Err(e) => {},
        Ok(num_fmt) => {
            let once = with_style(t, f);
            assert(record_of(once, f, num_fmt) == record_of(t, f, num_fmt));
            lemma_insert_twice(t.formats, record_of(t, f, num_fmt));
        },
    }
}

/// A component that a list holds keeps its id when another component is
/// asked for.
pub proof fn lemma_part_keeps(
    table: Seq<Seq<u8>>,
    plain: bool,
    xml: Seq<u8>,
    other_plain: bool,
    other: Seq<u8>,
)
    requires
        with_part(table, plain, xml) == table,
    ensures
        part_id(with_part(table, other_plain, other), plain, xml) == part_id(table, plain, xml),
        with_part(with_part(table, other_plain, other), plain, xml) == with_part(
            table,
            other_plain,
            other,
        ),
{
    if !plain {
        lemma_position(table, xml);
        lemma_insert_keeps_ids(table, other);
        lemma_position(inserted(table, other), xml);
    }
}

/// A number format that is built in or declared keeps its id when another
/// format is asked for.
pub proof fn lemma_format_keeps(t: Seq<(u32, Seq<u8>)>, code: Seq<u8>, other: Seq<u8>)
    requires
        format_id(t, code) is Ok,
        with_format(t, code) == t,
    ensures
        format_id(with_format(t, other), code) == format_id(t, code),
        with_format(with_format(t, other), code) == with_format(t, other),
{
    lemma_format_keeps_ids(t, other, code);
    let u = with_format(t, other);
    let key = escaped(code);
    if declares(t, code) {
        assert(t.push((next_id(t) as u32, key)).len() == t.len() + 1);
    }
    assert(!declares(t, code));
    if code.len() != 0 && builtin_from(code, 0) >= BUILTIN_END {
        lemma_code_position(t, key, 0);
        let at = code_position(t, key, 0);
        assert(at < t.len());
        if declares(t, other) {
            assert(u[at] == t[at]);
            assert forall|j: int| 0 <= j < at implies u[j].1 != key by {
                assert(u[j] == t[j]);
            }
            lemma_code_position_is(u, key, at);
        }
    }
}

/// Ids are stable: once a cell format has its id, asking for any other
/// format changes neither that id nor what the table holds for it, so that
/// every later request for the format converges to the same id.
pub proof fn lemma_style_keeps_ids(t: StyleTableView, g: CellFormatView, f: CellFormatView)
    requires
        style_id(t, f) is Ok,
        with_style(t, f) == t,
    ensures
        style_id(with_style(t, g), f) == style_id(t, f),
        with_style(with_style(t, g), f) == with_style(t, g),
{
    let num_fmt = format_id(t.number_formats, f.number_format).unwrap();
    match format_id(t.number_formats, g.number_format) {
        Err(_) => {},
        Ok(other) => {
            let u = with_style(t, g);
            lemma_format_keeps(t.number_formats, f.number_format, g.number_format);
            lemma_part_keeps(
                t.fonts,
                font_is_plain(f.font),
                font_xml(f.font),
                font_is_plain(g.font),
                font_xml(g.font),
            );
            lemma_part_keeps(
                t.fills,
                fill_is_plain(f.fill),
                fill_xml(f.fill),
                fill_is_plain(g.fill),
                fill_xml(g.fill),
            );
            lemma_part_keeps(
                t.borders,
                border_is_plain(f.border),
                border_xml(f.border),
                border_is_plain(g.border),
                border_xml(g.border),
            );
            let record = record_of(t, f, num_fmt);
            assert(record_of(u, f, num_fmt) == record);
            lemma_part_keeps(t.formats, false, record, false, record_of(t, g, other));
        },
    }
}

} // verus!
