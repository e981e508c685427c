//! A patch engine for spreadsheet workbooks stored as zip-of-XML archives.
//!
//! A workbook is opened, a set of edits is applied, and a new archive is
//! written whose bytes differ from the source only where the edits reach.
//! Nothing is rebuilt: a part is its source bytes with splices made, and
//! the archive is its source bytes with the local records of the edited
//! parts replaced. Whatever the engine does not model (vendor extensions,
//! comments, unknown attributes and elements, parts it never opens) is
//! copied as it stands.
//!
//! The modules, from the leaves up:
//!
//! - [`bytes`], [`cellref`]: numerals, column labels and cell addresses;
//! - [`splice`]: replacing ranges of a byte string, and what that keeps;
//! - [`xml`], [`part`], [`attrs`], [`tree`]: tokens, nodes and attributes
//!   of a part that is kept as source;
//! - [`tables`], [`numfmt`], [`style`], [`render`], [`styles`]: the shared
//!   tables and how their entries are written;
//! - [`sheet`], [`shift`], [`lists`], [`workbook`]: the mutations of a part;
//! - [`archive`], [`write`]: the zip container;
//! - [`document`], [`edit`], [`plan`], [`planner`], [`applier`],
//!   [`session`]: a patch call from edits to bytes.
//!
//! Every function is verified with Verus against the contract it carries.
//! Four calls leave the verified world and are believed as documented:
//! `str::from_utf8` of the standard library, `decompress_to_vec_with_limit`
//! and `compress_to_vec` of `miniz_oxide`, and `hash` of `crc32fast`.

pub mod applier;
pub mod archive;
pub mod attrs;
pub mod bytes;
pub mod cellref;
pub mod document;
pub mod edit;
pub mod error;
pub mod info;
pub mod lists;
pub mod numfmt;
pub mod part;
pub mod plan;
pub mod planner;
pub mod render;
pub mod session;
pub mod sheet;
pub mod shift;
pub mod splice;
pub mod style;
pub mod styles;
pub mod tables;
pub mod tree;
pub mod workbook;
pub mod write;
pub mod xml;
