//! The failures a patch session can report.

use vstd::prelude::*;

verus! {

/// Why a patch call was refused. Every failure aborts the whole call.
#[derive(Clone, Copy, Debug, PartialEq, Eq, Structural)]
pub enum PatchError {
    /// The container is not a readable archive, or a required part is absent.
    CorruptArchive,
    /// A part is not well-formed XML.
    MalformedXml,
    /// No archive entry has the requested name.
    PartNotFound,
    /// An edit names a sheet the workbook does not have.
    UnknownSheet,
    /// A table id is not assigned.
    InvalidIndex,
    /// A cell reference lies outside the sheet grid.
    OutOfRangeReference,
    /// The document uses a construct that cannot be patched safely.
    UnsupportedFeature,
}

} // verus!
