//! Building a formula from source.

pub mod executor;

use vstd::prelude::*;

verus! {

/// What a source build needs to know of its formula.
#[derive(Debug, PartialEq, Eq)]
pub struct BuildPlan {
    pub formula_name: String,
    pub version: String,
    pub source_url: String,
    pub source_checksum: Option<String>,
    /// The directory below the Cellar that the build fills.
    pub cellar_path: String,
}

} // verus!
