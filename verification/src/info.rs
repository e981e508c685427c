//! What the engine says about itself, for diagnostics.

use vstd::prelude::*;

verus! {

/// The identity of the engine and of the backends built with it.
#[derive(Clone, Debug)]
pub struct BuildInfo {
    pub package: &'static str,
    pub package_version: String,
    /// The names of the backends, in a fixed order.
    pub enabled_backends: Vec<&'static str>,
    /// The version of each backend that reads or writes whole workbooks,
    /// where it is known, in the order of their names.
    pub backend_versions: Vec<(&'static str, Option<String>)>,
}

/// Collects the identity of the engine: its name, the version it was
/// built as, the three backends, and the versions of the bulk reader and
/// the bulk writer as the build recorded them.
pub fn build_info(package_version: String, reader_version: Option<String>, writer_version: Option<
    String,
>) -> (info: BuildInfo)
    ensures
        info.package == "wolfxl",
        info.package_version == package_version,
        info.enabled_backends@ == seq!["calamine-styles", "rust_xlsxwriter", "wolfxl"],
        info.backend_versions@ == seq![
            ("calamine-styles", reader_version),
            ("rust_xlsxwriter", writer_version),
        ],
{
    let mut enabled_backends: Vec<&'static str> = Vec::new();
    enabled_backends.push("calamine-styles");
    enabled_backends.push("rust_xlsxwriter");
    enabled_backends.push("wolfxl");
    let mut backend_versions: Vec<(&'static str, Option<String>)> = Vec::new();
    backend_versions.push(("calamine-styles", reader_version));
    backend_versions.push(("rust_xlsxwriter", writer_version));
    assert(enabled_backends@ =~= seq!["calamine-styles", "rust_xlsxwriter", "wolfxl"]);
    assert(backend_versions@ =~= seq![
        ("calamine-styles", reader_version),
        ("rust_xlsxwriter", writer_version),
    ]);
    BuildInfo { package: "wolfxl", package_version, enabled_backends, backend_versions }
}

} // verus!
