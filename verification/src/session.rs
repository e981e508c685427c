//! Patch sessions: open a workbook, enqueue edits, commit.
//!
//! A commit plans the enqueued edits, applies the plan and writes the
//! archive. It is atomic: it either returns the bytes of the new archive
//! and stores what it did in the document, or returns an error and leaves
//! the document and the queue as they were. What a commit returns is fixed
//! by the archive and the edits alone.

use vstd::prelude::*;
use crate::applier::{applied, install, prepare};
use crate::archive::{
    has_entry, lemma_entry_bounds, lemma_lists_unique, listing, lists, lists_as, read_directory,
    readable, Archive, Entry, Listing,
};
use crate::bytes::lit;
use crate::cellref::SheetFormat;
use crate::document::{lemma_loaded, loaded, Document, DocumentView};
use crate::edit::{edit_views, Edit, EditView};
use crate::error::PatchError;
use crate::plan::{PartPlanView, Section};
use crate::planner::{appended, gained, plan, plan_of, sheet_plans, StepView};
use crate::splice::{bytes_of, made, SpliceView};
use crate::write::{write_plan, written, Written};

verus! {

/// The file is an archive that holds a workbook: it can be read, and it
/// has a content-types part and a workbook part.
pub open spec fn is_workbook(src: Seq<u8>) -> bool {
    &&& readable(src)
    &&& has_entry(src, listing(src).entries, lit("[Content_Types].xml"))
    &&& has_entry(src, listing(src).entries, lit("xl/workbook.xml"))
}

/// The document a file holds: `CorruptArchive` if the file is no archive
/// or lacks a required part, else what loading it gives.
pub open spec fn opened(src: Seq<u8>, format: SheetFormat) -> Result<DocumentView, PatchError> {
    if !is_workbook(src) {
        Err(PatchError::CorruptArchive)
    } else {
        loaded(src, listing(src).tail, listing(src).start, listing(src).entries, format)
    }
}

/// What a commit gives: the bytes of the new archive, and the document as
/// it stands then.
pub open spec fn committed(d: DocumentView, edits: Seq<EditView>) -> Result<
    (Seq<u8>, DocumentView),
    PatchError,
> {
    match plan_of(d, edits) {
        Err(e) => Err(e),
        Ok(plan) => match applied(d, plan) {
            Err(e) => Err(e),
            Ok((out, after)) => match made(
                d.src,
                write_plan(d.src, d.tail, d.start, d.entries, after.rewritten),
            ) {
                Err(e) => Err(e),
                Ok(bytes) => Ok((bytes, after)),
            },
        },
    }
}

/// What patching a file gives: the bytes of the archive with the edits
/// made.
pub open spec fn patched(src: Seq<u8>, format: SheetFormat, edits: Seq<EditView>) -> Result<
    Seq<u8>,
    PatchError,
> {
    match opened(src, format) {
        Err(e) => Err(e),
        Ok(d) => match committed(d, edits) {
            Err(e) => Err(e),
            Ok((bytes, after)) => Ok(bytes),
        },
    }
}

/// Reads a file as the archive of a workbook. `CorruptArchive` if the
/// central directory cannot be read or the content-types part or the
/// workbook part is missing.
pub fn open(bytes: &[u8]) -> (outcome: Result<Archive, PatchError>)
    ensures
        match outcome {
            Ok(archive) => {
                &&& is_workbook(bytes@)
                &&& archive.wf()
                &&& archive.src@ == bytes@
                &&& archive.tail == listing(bytes@).tail
                &&& archive.start == listing(bytes@).start
                &&& archive.entries@ == listing(bytes@).entries
            },
            Err(e) => e == PatchError::CorruptArchive && !is_workbook(bytes@),
        },
{
    let archive = match read_directory(bytes) {
        Ok(a) => a,
        Err(e) => {
            return Err(e);
        },
    };
    proof {
        let own = Listing {
            tail: archive.tail as int,
            start: archive.start as int,
            entries: archive.entries@,
        };
        assert(lists_as(bytes@, own));
        let l = listing(bytes@);
        lemma_lists_unique(bytes@, own.tail, own.start, own.entries, l.tail, l.start, l.entries);
    }
    if archive.find("[Content_Types].xml".as_bytes()).is_none() || archive.find(
        "xl/workbook.xml".as_bytes(),
    ).is_none() {
        return Err(PatchError::CorruptArchive);
    }
    Ok(archive)
}

/// A patch session: a document and the edits that wait to be committed.
pub struct Session {
    pub doc: Document,
    pub edits: Vec<Edit>,
}

impl Session {
    /// The document of the session can be read.
    pub open spec fn wf(&self) -> bool {
        self.doc.wf()
    }

    /// Opens a workbook for patching.
    pub fn open(bytes: &[u8], format: SheetFormat) -> (outcome: Result<Session, PatchError>)
        ensures
            match outcome {
                Ok(s) => s.wf() && s.edits@.len() == 0 && opened(bytes@, format) == Ok::<
                    DocumentView,
                    PatchError,
                >(s.doc@),
                Err(e) => opened(bytes@, format) == Err::<DocumentView, PatchError>(e),
            },
    {
        let archive = match open(bytes) {
            Ok(a) => a,
            Err(e) => {
                return Err(e);
            },
        };
        match Document::load(archive, format) {
            Ok(doc) => Ok(Session { doc, edits: Vec::new() }),
            Err(e) => Err(e),
        }
    }

    /// Whether the session is as a session that was opened and used through
    /// its methods always is: its archive is the reading of its bytes.
    pub fn intact(&self) -> (ok: bool)
        ensures
            ok == self.wf(),
    {
        self.doc.archive.intact()
    }

    /// Puts an edit behind the edits that wait.
    pub fn enqueue(&mut self, edit: Edit)
        ensures
            final(self).doc == old(self).doc,
            final(self).edits@ == old(self).edits@.push(edit),
    {
        self.edits.push(edit);
    }

    /// How many edits wait.
    pub fn pending(&self) -> (n: usize)
        ensures
            n == self.edits@.len(),
    {
        self.edits.len()
    }

    /// Makes the edits that wait and returns the bytes of the new archive.
    /// On success the queue is empty and the document holds the rewritten
    /// parts; on failure nothing has changed and nothing was produced.
    pub fn commit(&mut self) -> (outcome: Result<Vec<u8>, PatchError>)
        requires
            old(self).wf(),
        ensures
            final(self).wf(),
            match outcome {
                Ok(bytes) => committed(old(self).doc@, edit_views(old(self).edits@)) == Ok::<
                    (Seq<u8>, DocumentView),
                    PatchError,
                >((bytes@, final(self).doc@)) && final(self).edits@.len() == 0,
                Err(e) => committed(old(self).doc@, edit_views(old(self).edits@)) == Err::<
                    (Seq<u8>, DocumentView),
                    PatchError,
                >(e) && final(self).doc@ == old(self).doc@ && final(self).edits
                    == old(self).edits,
            },
    {
        let plan = match plan(&self.doc, &self.edits) {
            Ok(p) => p,
            Err(e) => {
                return Err(e);
            },
        };
        let prepared = match prepare(&self.doc, &plan) {
            Ok(p) => p,
            Err(e) => {
                return Err(e);
            },
        };
        let bytes = match crate::write::write(&self.doc.archive, &prepared.rewritten) {
            Ok(b) => b,
            Err(e) => {
                return Err(e);
            },
        };
        install(&mut self.doc, prepared);
        self.edits.clear();
        Ok(bytes)
    }
}

/// Patches a workbook: opens the archive, makes the edits, and returns the
/// bytes of the new archive. The result is a function of the arguments:
/// the same edits on the same archive give the same bytes.
pub fn patch(bytes: &[u8], format: SheetFormat, edits: Vec<Edit>) -> (outcome: Result<
    Vec<u8>,
    PatchError,
>)
    ensures
        bytes_of(outcome) == patched(bytes@, format, edit_views(edits@)),
{
    let mut session = match Session::open(bytes, format) {
        Ok(s) => s,
        Err(e) => {
            return Err(e);
        },
    };
    session.edits = edits;
    session.commit()
}

/// Determinism: what patching gives depends on the bytes of the archive,
/// the format and the values of the edits alone, so that two edit sets
/// that hold the same edits in the same order give the same result.
pub proof fn lemma_patch_is_determined(
    src: Seq<u8>,
    format: SheetFormat,
    a: Seq<Edit>,
    b: Seq<Edit>,
)
    requires
        a.len() == b.len(),
        forall|i: int| 0 <= i < a.len() ==> a[i]@ == b[i]@,
    ensures
        patched(src, format, edit_views(a)) == patched(src, format, edit_views(b)),
{
    assert(edit_views(a) =~= edit_views(b));
}

/// Without steps no sheet is touched.
pub proof fn lemma_no_sheet_plans(sheets: Seq<(u32, Seq<u8>, Seq<u8>)>, k: int)
    ensures
        sheet_plans(sheets, Seq::<StepView>::empty(), k) == Seq::<PartPlanView>::empty(),
    decreases k,
{
    if k > 0 {
        lemma_no_sheet_plans(sheets, k - 1);
        assert(sheet_plans(sheets, Seq::<StepView>::empty(), k) =~= Seq::<PartPlanView>::empty());
    }
}

/// Without edited parts no entry is rewritten and none moves.
pub proof fn lemma_nothing_written(src: Seq<u8>, tail: int, start: int, entries: Seq<Entry>, k: int)
    requires
        lists(src, tail, start, entries),
        0 <= k <= entries.len(),
    ensures
        written(src, entries, Seq::<(Seq<u8>, Seq<u8>)>::empty(), k) == Ok::<
            Written,
            PatchError,
        >(
            Written {
                locals: Seq::<SpliceView>::empty(),
                headers: Seq::<SpliceView>::empty(),
                drift: 0,
            },
        ),
    decreases k,
{
    if k > 0 {
        lemma_nothing_written(src, tail, start, entries, k - 1);
        lemma_entry_bounds(src, tail, start, entries, k - 1);
        let st = written(src, entries, Seq::<(Seq<u8>, Seq<u8>)>::empty(), k - 1).unwrap();
        assert(st.headers + Seq::<SpliceView>::empty() =~= st.headers);
    }
}

/// Round trip: a commit of no edits on a document that was just opened
/// returns the bytes of the source archive, and leaves the document as it
/// was.
pub proof fn lemma_commit_nothing(d: DocumentView)
    requires
        lists(d.src, d.tail, d.start, d.entries),
        d.rewritten.len() == 0,
    ensures
        committed(d, Seq::<EditView>::empty()) == Ok::<(Seq<u8>, DocumentView), PatchError>(
            (d.src, d),
        ),
{
    let none = Seq::<EditView>::empty();
    let no_parts = Seq::<(Seq<u8>, Seq<u8>)>::empty();
    lemma_no_sheet_plans(d.sheets, d.sheets.len() as int);
    let plan = plan_of(d, none).unwrap();
    assert(appended(Section::Strings, gained(d.strings, d.strings.len() as int)).len() == 0);
    assert(plan =~= Seq::<PartPlanView>::empty());
    assert(plan_of(d, none) == Ok::<Seq<PartPlanView>, PatchError>(plan));
    assert(d.rewritten =~= no_parts);
    let after = applied(d, plan).unwrap().1;
    assert(after == d);
    lemma_nothing_written(d.src, d.tail, d.start, d.entries, d.entries.len() as int);
    assert(Seq::<SpliceView>::empty() + Seq::<SpliceView>::empty() =~= Seq::<SpliceView>::empty());
}

/// Round trip: patching a workbook with no edits returns its bytes.
pub proof fn lemma_patch_nothing(src: Seq<u8>, format: SheetFormat)
    requires
        opened(src, format) is Ok,
    ensures
        patched(src, format, Seq::<EditView>::empty()) == Ok::<Seq<u8>, PatchError>(src),
{
    let l = listing(src);
    assert(lists_as(src, l));
    let d = loaded(src, l.tail, l.start, l.entries, format).unwrap();
    lemma_loaded(src, l.tail, l.start, l.entries, format);
    assert(opened(src, format) == Ok::<DocumentView, PatchError>(d));
    lemma_commit_nothing(d);
    assert(committed(d, Seq::<EditView>::empty()) == Ok::<(Seq<u8>, DocumentView), PatchError>(
        (src, d),
    ));
}

} // verus!
