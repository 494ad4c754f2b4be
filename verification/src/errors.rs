//! The failures that the installer reports.

use vstd::prelude::*;
use vstd::string::*;
use crate::text::{join_with, push_joined};

verus! {

/// A failure of the installer core.
#[derive(Debug, Clone, PartialEq, Eq)]
pub enum Error {
    /// The index holds no formula of this name.
    FormulaNotFound { name: String },
    /// The formula has neither a bottle for the platform nor a source to build from.
    PlatformUnsupported { name: String, platform_tag: String },
    /// The dependency graph is not acyclic; `names` are formulas that no order can place.
    DependencyCycle { names: Vec<String> },
    /// A fetched file does not have the digest that was expected of it.
    ChecksumMismatch { url: String, expected: String, actual: String },
    /// A download failed.
    NetworkError { url: String, detail: String },
    /// An archive could not be unpacked.
    ExtractionError { archive: String, detail: String },
    /// A source build of `name` failed; `tail` is the end of what it printed.
    BuildError { name: String, tail: String },
    /// A helper process could not be found, started or waited for, or failed.
    ExecutionError { message: String },
    /// A path in the prefix that a link needs is owned by something else.
    ConflictedLink { path: String, existing_owner: String },
    /// The store is absent or inconsistent.
    StoreCorruption { message: String },
    /// A file could not be read or written, or did not hold what it must.
    FileError { message: String },
    /// The formula is installed already in this version.
    AlreadyInstalled { name: String, version: String },
}

impl Error {
    /// Whether this is a file error with the message `text`.
    pub open spec fn is_file_error(self, text: Seq<char>) -> bool {
        self matches Error::FileError { message } && message@ == text
    }

    /// Whether this is an execution error with the message `text`.
    pub open spec fn is_execution_error(self, text: Seq<char>) -> bool {
        self matches Error::ExecutionError { message } && message@ == text
    }

    /// Whether this says that the index holds no formula named `formula`.
    pub open spec fn is_not_found(self, formula: Seq<char>) -> bool {
        self matches Error::FormulaNotFound { name } && name@ == formula
    }

    /// Whether this says that `formula` cannot be installed on the platform
    /// with the catalog key `tag`.
    pub open spec fn is_unsupported(self, formula: Seq<char>, tag: Seq<char>) -> bool {
        self matches Error::PlatformUnsupported { name, platform_tag } && name@ == formula
            && platform_tag@ == tag
    }

    /// Whether this says that the formulas `formulas` need each other in a
    /// circle.
    pub open spec fn is_cycle(self, formulas: Seq<Seq<char>>) -> bool {
        self matches Error::DependencyCycle { names } && names.deep_view() == formulas
    }

    /// Whether this says that `at` is owned by `owner` already.
    pub open spec fn is_conflict(self, at: Seq<char>, owner: Seq<char>) -> bool {
        self matches Error::ConflictedLink { path, existing_owner } && path@ == at
            && existing_owner@ == owner
    }

    /// Whether this says that what was fetched from `from` has the digest
    /// `got` where `wanted` was expected.
    pub open spec fn is_mismatch(self, from: Seq<char>, wanted: Seq<char>, got: Seq<char>) -> bool {
        self matches Error::ChecksumMismatch { url, expected, actual } && url@ == from
            && expected@ == wanted && actual@ == got
    }

    /// Whether this says that `formula` is installed already in `version`.
    pub open spec fn is_already_installed(self, formula: Seq<char>, release: Seq<char>) -> bool {
        self matches Error::AlreadyInstalled { name, version } && name@ == formula && version@
            == release
    }

    /// Whether this is a build error for `formula` with the output `text`.
    pub open spec fn is_build_error(self, formula: Seq<char>, text: Seq<char>) -> bool {
        self matches Error::BuildError { name, tail } && name@ == formula && tail@ == text
    }

    /// What the error says, in one piece of text.
    pub open spec fn message_text(self) -> Seq<char> {
        match self {
            Error::FormulaNotFound { name } => "formula not found: "@ + name@,
            Error::PlatformUnsupported { name, platform_tag } => "no bottle or source for "@
                + name@ + " on "@ + platform_tag@,
            Error::DependencyCycle { names } => "dependency cycle: "@ + join_with(
                names.deep_view(),
                ", "@,
            ),
            Error::ChecksumMismatch { url, expected, actual } => "checksum mismatch for "@ + url@
                + ": expected "@ + expected@ + ", got "@ + actual@,
            Error::NetworkError { url, detail } => "network error for "@ + url@ + ": "@ + detail@,
            Error::ExtractionError { archive, detail } => "failed to extract "@ + archive@ + ": "@
                + detail@,
            Error::BuildError { name, tail } => "build of "@ + name@ + " failed: "@ + tail@,
            Error::ExecutionError { message } => message@,
            Error::ConflictedLink { path, existing_owner } => "link conflict at "@ + path@
                + ": owned by "@ + existing_owner@,
            Error::StoreCorruption { message } => message@,
            Error::FileError { message } => message@,
            Error::AlreadyInstalled { name, version } => name@ + " "@ + version@
                + " is already installed"@,
        }
    }

    /// What the error says, in one piece of text.
    pub fn message(&self) -> (text: String)
        ensures
            text@ == self.message_text(),
    {
        match self {
            Error::FormulaNotFound { name } => String::from_str("formula not found: ").concat(
                name.as_str(),
            ),
            Error::PlatformUnsupported { name, platform_tag } => String::from_str(
                "no bottle or source for ",
            ).concat(name.as_str()).concat(" on ").concat(platform_tag.as_str()),
            Error::DependencyCycle { names } => {
                let mut text = String::from_str("dependency cycle: ");
                push_joined(&mut text, names, ", ");
                text
            },
            Error::ChecksumMismatch { url, expected, actual } => String::from_str(
                "checksum mismatch for ",
            ).concat(url.as_str()).concat(": expected ").concat(expected.as_str()).concat(
                ", got ",
            ).concat(actual.as_str()),
            Error::NetworkError { url, detail } => String::from_str("network error for ").concat(
                url.as_str(),
            ).concat(": ").concat(detail.as_str()),
            Error::ExtractionError { archive, detail } => String::from_str(
                "failed to extract ",
            ).concat(archive.as_str()).concat(": ").concat(detail.as_str()),
            Error::BuildError { name, tail } => String::from_str("build of ").concat(
                name.as_str(),
            ).concat(" failed: ").concat(tail.as_str()),
            Error::ExecutionError { message } => message.clone(),
            Error::ConflictedLink { path, existing_owner } => String::from_str(
                "link conflict at ",
            ).concat(path.as_str()).concat(": owned by ").concat(existing_owner.as_str()),
            Error::StoreCorruption { message } => message.clone(),
            Error::FileError { message } => message.clone(),
            Error::AlreadyInstalled { name, version } => {
                let mut text = name.clone();
                text.append(" ");
                text.append(version.as_str());
                text.append(" is already installed");
                text
            },
        }
    }

    /// Whether this is a store corruption with the message `text`.
    pub open spec fn is_store_corruption(self, text: Seq<char>) -> bool {
        self matches Error::StoreCorruption { message } && message@ == text
    }
}

} // verus!
