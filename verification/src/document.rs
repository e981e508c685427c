//! The document of a patch session: the archive it was opened from, the
//! sheets of the workbook, the shared tables, and the parts that were
//! rewritten so far.

use vstd::prelude::*;
use crate::archive::{has_entry, part_content, Archive, Entry};
use crate::bytes::{bytes_eq, copy_of, lit};
use crate::cellref::SheetFormat;
use crate::error::PatchError;
use crate::lists::{list_entries, read_list};
use crate::numfmt::NumberFormatTable;
use crate::part::{nodes_of, parse, well_formed, Node, Part};
use crate::plan::Section;
use crate::splice::bytes_of;
use crate::styles::{loaded_styles, StyleTable, StyleTableView};
use crate::tables::SharedStringTable;
use crate::workbook::{
    find_target, part_path, path_of, read_sheets, ref_views, target_of, workbook_sheets, SheetRef,
};
use crate::write::{edit_position, edited_views, Edited};

verus! {

/// A sheet of the workbook.
#[derive(Clone, Debug)]
pub struct Sheet {
    pub id: u32,
    /// The sheet's name, as the workbook part holds it.
    pub name: Vec<u8>,
    /// The path of the sheet's part in the archive.
    pub part: Vec<u8>,
}

/// What each sheet of a vector is: its id, its name and its part.
pub open spec fn sheet_views(sheets: Seq<Sheet>) -> Seq<(u32, Seq<u8>, Seq<u8>)> {
    Seq::new(sheets.len(), |i: int| (sheets[i].id, sheets[i].name@, sheets[i].part@))
}

/// A workbook that is being patched.
pub struct Document {
    pub archive: Archive,
    pub format: SheetFormat,
    pub sheets: Vec<Sheet>,
    /// Whether the workbook has a part for shared strings.
    pub shared: bool,
    pub strings: SharedStringTable,
    pub styles: StyleTable,
    /// The parts that were rewritten, each with its current bytes.
    pub rewritten: Vec<Edited>,
}

/// What a document is: the bytes and listing of its archive, its sheets
/// and tables, and the parts rewritten so far.
pub struct DocumentView {
    pub src: Seq<u8>,
    pub tail: int,
    pub start: int,
    pub entries: Seq<Entry>,
    pub format: SheetFormat,
    pub sheets: Seq<(u32, Seq<u8>, Seq<u8>)>,
    pub shared: bool,
    pub strings: Seq<Seq<u8>>,
    pub styles: StyleTableView,
    pub rewritten: Seq<(Seq<u8>, Seq<u8>)>,
}

impl View for Document {
    type V = DocumentView;

    open spec fn view(&self) -> DocumentView {
        DocumentView {
            src: self.archive.src@,
            tail: self.archive.tail as int,
            start: self.archive.start as int,
            entries: self.archive.entries@,
            format: self.format,
            sheets: sheet_views(self.sheets@),
            shared: self.shared,
            strings: self.strings@,
            styles: self.styles@,
            rewritten: edited_views(self.rewritten@),
        }
    }
}

/// A source and its nodes.
pub struct Parsed {
    pub src: Seq<u8>,
    pub nodes: Seq<Node>,
}

/// What reading and parsing a part gives: the error of the reading,
/// `MalformedXml` for content that is not well-formed, else the content
/// and its nodes.
pub open spec fn parsed(bytes: Result<Seq<u8>, PatchError>) -> Result<Parsed, PatchError> {
    match bytes {
        Err(e) => Err(e),
        Ok(src) => if well_formed(src) {
            Ok(Parsed { src, nodes: nodes_of(src) })
        } else {
            Err(PatchError::MalformedXml)
        },
    }
}

/// The first `k` declared sheets with the paths of their parts. A sheet
/// whose relationship has no target is refused.
pub open spec fn located(refs: Seq<(u32, Seq<u8>, Seq<u8>)>, rels: Parsed, k: int) -> Result<
    Seq<(u32, Seq<u8>, Seq<u8>)>,
    PatchError,
>
    decreases k,
{
    if k <= 0 {
        Ok(Seq::<(u32, Seq<u8>, Seq<u8>)>::empty())
    } else {
        match located(refs, rels, k - 1) {
            Err(e) => Err(e),
            Ok(s) => match target_of(rels.src, rels.nodes, refs[k - 1].2) {
                Some(target) => Ok(s.push((refs[k - 1].0, refs[k - 1].1, part_path(target)))),
                None => Err(PatchError::UnsupportedFeature),
            },
        }
    }
}

/// The sheets of a workbook, read from the workbook part and its
/// relationships.
pub open spec fn sheets_of(src: Seq<u8>, entries: Seq<Entry>) -> Result<
    Seq<(u32, Seq<u8>, Seq<u8>)>,
    PatchError,
> {
    match parsed(part_content(src, entries, lit("xl/workbook.xml"))) {
        Err(e) => Err(e),
        Ok(book) => match parsed(part_content(src, entries, lit("xl/_rels/workbook.xml.rels"))) {
            Err(e) => Err(e),
            Ok(rels) => match workbook_sheets(book.src, book.nodes) {
                Err(e) => Err(e),
                Ok(refs) => located(refs, rels, refs.len() as int),
            },
        },
    }
}

/// The shared strings of a workbook: the entries of its string part, or
/// none if it has no such part.
pub open spec fn strings_of(src: Seq<u8>, entries: Seq<Entry>) -> Result<Seq<Seq<u8>>, PatchError> {
    if !has_entry(src, entries, lit("xl/sharedStrings.xml")) {
        Ok(Seq::<Seq<u8>>::empty())
    } else {
        match parsed(part_content(src, entries, lit("xl/sharedStrings.xml"))) {
            Err(e) => Err(e),
            Ok(p) => match list_entries(p.src, p.nodes, lit("sst"), 0) {
                Some(list) => Ok(list),
                None => Err(PatchError::UnsupportedFeature),
            },
        }
    }
}

/// A style table without entries.
pub open spec fn no_styles() -> StyleTableView {
    StyleTableView {
        number_formats: Seq::<(u32, Seq<u8>)>::empty(),
        fonts: Seq::<Seq<u8>>::empty(),
        fills: Seq::<Seq<u8>>::empty(),
        borders: Seq::<Seq<u8>>::empty(),
        formats: Seq::<Seq<u8>>::empty(),
    }
}

/// The styles of a workbook: the table of its style part, or an empty
/// table if it has no such part.
pub open spec fn styles_of(src: Seq<u8>, entries: Seq<Entry>) -> Result<
    StyleTableView,
    PatchError,
> {
    if !has_entry(src, entries, lit("xl/styles.xml")) {
        Ok(no_styles())
    } else {
        match parsed(part_content(src, entries, lit("xl/styles.xml"))) {
            Err(e) => Err(e),
            Ok(p) => loaded_styles(p.src, p.nodes),
        }
    }
}

/// The document an archive holds.
pub open spec fn loaded(
    src: Seq<u8>,
    tail: int,
    start: int,
    entries: Seq<Entry>,
    format: SheetFormat,
) -> Result<DocumentView, PatchError> {
    match sheets_of(src, entries) {
        Err(e) => Err(e),
        Ok(sheets) => match strings_of(src, entries) {
            Err(e) => Err(e),
            Ok(strings) => match styles_of(src, entries) {
                Err(e) => Err(e),
                Ok(styles) => Ok(
                    DocumentView {
                        src,
                        tail,
                        start,
                        entries,
                        format,
                        sheets,
                        shared: has_entry(src, entries, lit("xl/sharedStrings.xml")),
                        strings,
                        styles,
                        rewritten: Seq::<(Seq<u8>, Seq<u8>)>::empty(),
                    },
                ),
            },
        },
    }
}

/// A document that was just loaded is that of its archive, and has no
/// rewritten part.
pub proof fn lemma_loaded(
    src: Seq<u8>,
    tail: int,
    start: int,
    entries: Seq<Entry>,
    format: SheetFormat,
)
    ensures
        loaded(src, tail, start, entries, format) matches Ok(d) ==> {
            &&& d.src == src
            &&& d.tail == tail
            &&& d.start == start
            &&& d.entries == entries
            &&& d.format == format
            &&& d.rewritten.len() == 0
        },
{
}

/// The current bytes of a part: those it was last rewritten to, or else
/// its content in the archive.
pub open spec fn current(d: DocumentView, name: Seq<u8>) -> Result<Seq<u8>, PatchError> {
    let at = edit_position(d.rewritten, name, 0);
    if at < d.rewritten.len() {
        Ok(d.rewritten[at].1)
    } else {
        part_content(d.src, d.entries, name)
    }
}

/// The first position at or after `i` whose sheet has the id `id`, or the
/// number of sheets.
pub open spec fn sheet_position(sheets: Seq<(u32, Seq<u8>, Seq<u8>)>, id: u32, i: int) -> int
    decreases sheets.len() - i,
{
    if 0 <= i < sheets.len() && sheets[i].0 != id {
        sheet_position(sheets, id, i + 1)
    } else {
        i
    }
}

/// The first position at or after `i` whose sheet is called `name`, or the
/// number of sheets.
pub open spec fn name_position(sheets: Seq<(u32, Seq<u8>, Seq<u8>)>, name: Seq<u8>, i: int) -> int
    decreases sheets.len() - i,
{
    if 0 <= i < sheets.len() && sheets[i].1 != name {
        name_position(sheets, name, i + 1)
    } else {
        i
    }
}

/// Reads and parses a part of the archive.
pub fn read_part(archive: &Archive, name: &str) -> (outcome: Result<Part, PatchError>)
    requires
        archive.wf(),
    ensures
        match outcome {
            Ok(part) => part.wf() && parsed(
                part_content(archive.src@, archive.entries@, lit(name)),
            ) == Ok::<Parsed, PatchError>(Parsed { src: part.src@, nodes: part.nodes@ }),
            Err(e) => parsed(part_content(archive.src@, archive.entries@, lit(name))) == Err::<
                Parsed,
                PatchError,
            >(e),
        },
{
    match archive.entry(name.as_bytes()) {
        Err(e) => Err(e),
        Ok(bytes) => parse(name.as_bytes(), bytes.as_slice()),
    }
}

/// Finds the parts of the declared sheets.
fn locate(refs: Vec<SheetRef>, rels: &Part) -> (outcome: Result<Vec<Sheet>, PatchError>)
    requires
        rels.wf(),
    ensures
        match outcome {
            Ok(sheets) => located(
                ref_views(refs@),
                Parsed { src: rels.src@, nodes: rels.nodes@ },
                refs@.len() as int,
            ) == Ok::<Seq<(u32, Seq<u8>, Seq<u8>)>, PatchError>(sheet_views(sheets@)),
            Err(e) => located(
                ref_views(refs@),
                Parsed { src: rels.src@, nodes: rels.nodes@ },
                refs@.len() as int,
            ) == Err::<Seq<(u32, Seq<u8>, Seq<u8>)>, PatchError>(e),
        },
{
    let ghost views = ref_views(refs@);
    let ghost p = Parsed { src: rels.src@, nodes: rels.nodes@ };
    let mut sheets: Vec<Sheet> = Vec::new();
    let mut failed: bool = false;
    let mut k: usize = 0;
    assert(sheet_views(sheets@) =~= Seq::<(u32, Seq<u8>, Seq<u8>)>::empty());
    while k < refs.len()
        invariant
            rels.wf(),
            views == ref_views(refs@),
            p == (Parsed { src: rels.src@, nodes: rels.nodes@ }),
            k <= refs@.len(),
            located(views, p, k as int) == if failed {
                Err::<Seq<(u32, Seq<u8>, Seq<u8>)>, PatchError>(PatchError::UnsupportedFeature)
            } else {
                Ok::<Seq<(u32, Seq<u8>, Seq<u8>)>, PatchError>(sheet_views(sheets@))
            },
        decreases refs@.len() - k,
    {
        if !failed {
            let r = &refs[k];
            assert(views[k as int] == (r.id, r.name@, r.rel@));
            match find_target(rels, r.rel.as_slice()) {
                Some(target) => {
                    let ghost before = sheet_views(sheets@);
                    let sheet = Sheet {
                        id: r.id,
                        name: copy_of(r.name.as_slice()),
                        part: path_of(target.as_slice()),
                    };
                    sheets.push(sheet);
                    assert(sheet_views(sheets@) =~= before.push(
                        (r.id, r.name@, part_path(target@)),
                    ));
                },
                None => {
                    failed = true;
                },
            }
        }
        k += 1;
    }
    if failed {
        Err(PatchError::UnsupportedFeature)
    } else {
        Ok(sheets)
    }
}

/// Reads the sheets of a workbook.
fn load_sheets(archive: &Archive) -> (outcome: Result<Vec<Sheet>, PatchError>)
    requires
        archive.wf(),
    ensures
        match outcome {
            Ok(sheets) => sheets_of(archive.src@, archive.entries@) == Ok::<
                Seq<(u32, Seq<u8>, Seq<u8>)>,
                PatchError,
            >(sheet_views(sheets@)),
            Err(e) => sheets_of(archive.src@, archive.entries@) == Err::<
                Seq<(u32, Seq<u8>, Seq<u8>)>,
                PatchError,
            >(e),
        },
{
    let book = match read_part(archive, "xl/workbook.xml") {
        Ok(p) => p,
        Err(e) => {
            return Err(e);
        },
    };
    let rels = match read_part(archive, "xl/_rels/workbook.xml.rels") {
        Ok(p) => p,
        Err(e) => {
            return Err(e);
        },
    };
    match read_sheets(&book) {
        Err(e) => Err(e),
        Ok(refs) => locate(refs, &rels),
    }
}

/// Reads the shared strings of a workbook.
fn load_strings(archive: &Archive) -> (outcome: Result<SharedStringTable, PatchError>)
    requires
        archive.wf(),
    ensures
        match outcome {
            Ok(t) => strings_of(archive.src@, archive.entries@) == Ok::<
                Seq<Seq<u8>>,
                PatchError,
            >(t@),
            Err(e) => strings_of(archive.src@, archive.entries@) == Err::<
                Seq<Seq<u8>>,
                PatchError,
            >(e),
        },
{
    if archive.find("xl/sharedStrings.xml".as_bytes()).is_none() {
        return Ok(SharedStringTable::new());
    }
    match read_part(archive, "xl/sharedStrings.xml") {
        Err(e) => Err(e),
        Ok(part) => match read_list(&part, Section::Strings) {
            Some(entries) => Ok(SharedStringTable::from_entries(entries)),
            None => Err(PatchError::UnsupportedFeature),
        },
    }
}

/// Reads the styles of a workbook.
fn load_styles(archive: &Archive) -> (outcome: Result<StyleTable, PatchError>)
    requires
        archive.wf(),
    ensures
        match outcome {
            Ok(t) => styles_of(archive.src@, archive.entries@) == Ok::<
                StyleTableView,
                PatchError,
            >(t@),
            Err(e) => styles_of(archive.src@, archive.entries@) == Err::<
                StyleTableView,
                PatchError,
            >(e),
        },
{
    if archive.find("xl/styles.xml".as_bytes()).is_none() {
        return Ok(
            StyleTable {
                number_formats: NumberFormatTable::new(),
                fonts: SharedStringTable::new(),
                fills: SharedStringTable::new(),
                borders: SharedStringTable::new(),
                formats: SharedStringTable::new(),
            },
        );
    }
    match read_part(archive, "xl/styles.xml") {
        Err(e) => Err(e),
        Ok(part) => StyleTable::load(&part),
    }
}

impl Document {
    /// The archive of the document can be read.
    pub open spec fn wf(&self) -> bool {
        self.archive.wf()
    }

    /// Reads the document an archive holds: the sheets of the workbook
    /// with their parts, the shared strings and the styles.
    pub fn load(archive: Archive, format: SheetFormat) -> (outcome: Result<Document, PatchError>)
        requires
            archive.wf(),
        ensures
            match outcome {
                Ok(d) => d.wf() && d.archive == archive && loaded(
                    archive.src@,
                    archive.tail as int,
                    archive.start as int,
                    archive.entries@,
                    format,
                ) == Ok::<DocumentView, PatchError>(d@),
                Err(e) => loaded(
                    archive.src@,
                    archive.tail as int,
                    archive.start as int,
                    archive.entries@,
                    format,
                ) == Err::<DocumentView, PatchError>(e),
            },
    {
        let sheets = match load_sheets(&archive) {
            Ok(s) => s,
            Err(e) => {
                return Err(e);
            },
        };
        let strings = match load_strings(&archive) {
            Ok(s) => s,
            Err(e) => {
                return Err(e);
            },
        };
        let styles = match load_styles(&archive) {
            Ok(s) => s,
            Err(e) => {
                return Err(e);
            },
        };
        let shared = archive.find("xl/sharedStrings.xml".as_bytes()).is_some();
        let d = Document {
            archive,
            format,
            sheets,
            shared,
            strings,
            styles,
            rewritten: Vec::new(),
        };
        assert(edited_views(d.rewritten@) =~= Seq::<(Seq<u8>, Seq<u8>)>::empty());
        Ok(d)
    }

    /// The current bytes of a part; `PartNotFound` if the archive has no
    /// such part.
    pub fn part_bytes(&self, name: &[u8]) -> (outcome: Result<Vec<u8>, PatchError>)
        requires
            self.wf(),
        ensures
            bytes_of(outcome) == current(self@, name@),
    {
        let mut i: usize = 0;
        while i < self.rewritten.len()
            invariant
                i <= self.rewritten@.len(),
                edit_position(edited_views(self.rewritten@), name@, 0) == edit_position(
                    edited_views(self.rewritten@),
                    name@,
                    i as int,
                ),
            decreases self.rewritten@.len() - i,
        {
            if bytes_eq(self.rewritten[i].name.as_slice(), name) {
                return Ok(copy_of(self.rewritten[i].bytes.as_slice()));
            }
            i += 1;
        }
        self.archive.entry(name)
    }

    /// Reads the current bytes of a part as XML: the error of the reading,
    /// or `MalformedXml` if the part is not well-formed. A caller can ask
    /// this of each part to learn which one made a patch call fail.
    pub fn check_part(&self, name: &[u8]) -> (outcome: Result<(), PatchError>)
        requires
            self.wf(),
        ensures
            match outcome {
                Ok(_) => parsed(current(self@, name@)) is Ok,
                Err(e) => parsed(current(self@, name@)) == Err::<Parsed, PatchError>(e),
            },
    {
        match self.part_bytes(name) {
            Err(e) => Err(e),
            Ok(bytes) => match parse(name, bytes.as_slice()) {
                Ok(_) => Ok(()),
                Err(e) => Err(e),
            },
        }
    }

    /// The position of the sheet with id `id`; `UnknownSheet` if the
    /// workbook has no such sheet.
    pub fn sheet_index(&self, id: u32) -> (outcome: Result<usize, PatchError>)
        ensures
            match outcome {
                Ok(i) => i == sheet_position(self@.sheets, id, 0) && i < self@.sheets.len(),
                Err(e) => e == PatchError::UnknownSheet && sheet_position(self@.sheets, id, 0)
                    >= self@.sheets.len(),
            },
    {
        let mut i: usize = 0;
        while i < self.sheets.len()
            invariant
                i <= self.sheets@.len(),
                sheet_position(self@.sheets, id, 0) == sheet_position(self@.sheets, id, i as int),
            decreases self.sheets@.len() - i,
        {
            if self.sheets[i].id == id {
                return Ok(i);
            }
            i += 1;
        }
        Err(PatchError::UnknownSheet)
    }

    /// The id of the sheet called `name`, as the workbook part writes the
    /// name; `UnknownSheet` if the workbook has no such sheet.
    pub fn sheet_id(&self, name: &[u8]) -> (outcome: Result<u32, PatchError>)
        ensures
            match outcome {
                Ok(id) => name_position(self@.sheets, name@, 0) < self@.sheets.len()
                    && id == self@.sheets[name_position(self@.sheets, name@, 0)].0,
                Err(e) => e == PatchError::UnknownSheet && name_position(self@.sheets, name@, 0)
                    >= self@.sheets.len(),
            },
    {
        let mut i: usize = 0;
        while i < self.sheets.len()
            invariant
                i <= self.sheets@.len(),
                name_position(self@.sheets, name@, 0) == name_position(
                    self@.sheets,
                    name@,
                    i as int,
                ),
            decreases self.sheets@.len() - i,
        {
            if bytes_eq(self.sheets[i].name.as_slice(), name) {
                return Ok(self.sheets[i].id);
            }
            i += 1;
        }
        Err(PatchError::UnknownSheet)
    }
}

} // verus!
