//! The configuration of a run: where the sources lie and where the
//! documentation goes.

use vstd::prelude::*;

verus! {

/// The name under which the configuration is looked for by default.
pub const DEFAULT_CONFIG_FILE: &'static str = "rustdocmd.toml";

/// The two directories of a run.
#[derive(Debug, Clone, PartialEq, Eq)]
pub struct Paths {
    /// The root of the source files that are scanned.
    pub source: String,
    /// The directory that holds the markdown files and the summary.
    pub target: String,
}

/// What the configuration file holds.
#[derive(Debug, Clone, PartialEq, Eq)]
pub struct RustdocmdConfig {
    pub paths: Paths,
}

} // verus!
