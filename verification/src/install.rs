//! The steps of installing one formula of a plan, and what decides them.
//!
//! A formula that is recorded with the very keg that would be installed is
//! left alone. Otherwise its keg is materialized unless the store holds it
//! already: fetched and unpacked where a bottle was selected, built where
//! not. Then the keg is linked into the prefix, unless linking is switched
//! off, and at last the formula is recorded as installed.

use vstd::prelude::*;
use vstd::string::*;
use crate::build::BuildPlan;
use crate::errors::Error;
use crate::formula::bottle::{select_bottle, selected_position, SelectedBottle};
use crate::formula::deps::{from_source, unsupported};
use crate::formula::types::{Formula, Platform, Version};
use crate::linker::cellar_path;
use crate::paths::join_path;
use crate::store::{
    key_position, lemma_key_found, record_names, store_key_material, store_key_text, Store,
};
use crate::text::{chars_of, nat_text, push_decimal, same_chars};

verus! {

/// The version of a formula as it names the directory below the Cellar:
/// what upstream calls it, followed by an underscore and the revision where
/// the formula was revised.
pub open spec fn version_text(version: Version) -> Seq<char> {
    if version.revision == 0 {
        version.upstream@
    } else {
        version.upstream@ + "_"@ + nat_text(version.revision as nat)
    }
}

/// The version of a formula as it names the directory below the Cellar.
pub fn version_string(version: &Version) -> (text: String)
    ensures
        text@ == version_text(*version),
{
    let mut text = version.upstream.clone();
    if version.revision != 0 {
        text.append("_");
        push_decimal(&mut text, version.revision as u64);
    }
    text
}

/// How a formula gets its keg.
#[derive(Debug, PartialEq, Eq)]
pub enum InstallMethod {
    /// From this prebuilt artifact.
    Bottle { url: String, sha256: String, rebuild: u32 },
    /// By building its source.
    Source(BuildPlan),
}

impl InstallMethod {
    /// The checksum that goes into the store key: that of the bottle, or
    /// that of the source, which is empty where the formula gives none.
    pub open spec fn checksum(self) -> Seq<char> {
        match self {
            InstallMethod::Bottle { url, sha256, rebuild } => sha256@,
            InstallMethod::Source(plan) => match plan.source_checksum {
                Some(sum) => sum@,
                None => Seq::empty(),
            },
        }
    }

    /// The checksum that goes into the store key.
    pub fn checksum_text(&self) -> (sum: String)
        ensures
            sum@ == self.checksum(),
    {
        match self {
            InstallMethod::Bottle { url, sha256, rebuild } => sha256.clone(),
            InstallMethod::Source(plan) => match &plan.source_checksum {
                Some(sum) => sum.clone(),
                None => String::new(),
            },
        }
    }
}

/// Whether `plan` is the plan for building `formula` into `prefix`.
pub open spec fn is_build_plan(formula: Formula, prefix: Seq<char>, plan: BuildPlan) -> bool {
    &&& formula.source_url is Some
    &&& plan.formula_name@ == formula.name@
    &&& plan.version@ == version_text(formula.version)
    &&& plan.source_url@ == formula.source_url->0@
    &&& plan.source_checksum is Some <==> formula.source_checksum is Some
    &&& plan.source_checksum is Some ==> plan.source_checksum->0@ == formula.source_checksum->0@
    &&& plan.cellar_path@ == join_path(
        join_path(join_path(prefix, "Cellar"@), formula.name@),
        version_text(formula.version),
    )
}

/// How `formula` gets its keg on `platform`: from the bottle that is
/// selected for it, or by a build of its source into `prefix`. A formula
/// with neither is not supported.
pub fn install_method(formula: &Formula, platform: &Platform, prefix: &str) -> (res: Result<
    InstallMethod,
    Error,
>)
    ensures
        selected_position(formula.bottles@, *platform) is Some ==> res is Ok
            && res->Ok_0 is Bottle && (SelectedBottle::Bottle {
            url: res->Ok_0->url,
            sha256: res->Ok_0->sha256,
            rebuild: res->Ok_0->rebuild,
        }).is_file(formula.bottles@[selected_position(formula.bottles@, *platform)->0]),
        from_source(*formula, *platform) ==> res is Ok && res->Ok_0 is Source && is_build_plan(
            *formula,
            prefix@,
            res->Ok_0->Source_0,
        ),
        unsupported(*formula, *platform) ==> res is Err && res->Err_0.is_unsupported(
            formula.name@,
            platform.tag.key(),
        ),
{
    match select_bottle(formula, platform) {
        SelectedBottle::Bottle { url, sha256, rebuild } => Ok(
            InstallMethod::Bottle { url, sha256, rebuild },
        ),
        SelectedBottle::NoBottleBuildFromSource => {
            let version = version_string(&formula.version);
            let source_url = match &formula.source_url {
                Some(url) => url.clone(),
                None => String::new(),
            };
            let source_checksum = match &formula.source_checksum {
                Some(sum) => Some(sum.clone()),
                None => None,
            };
            let cellar = cellar_path(prefix, formula.name.as_str(), version.as_str());
            Ok(
                InstallMethod::Source(
                    BuildPlan {
                        formula_name: formula.name.clone(),
                        version,
                        source_url,
                        source_checksum,
                        cellar_path: cellar,
                    },
                ),
            )
        },
        SelectedBottle::Unsupported => Err(
            Error::PlatformUnsupported {
                name: formula.name.clone(),
                platform_tag: platform.tag.catalog_key(),
            },
        ),
    }
}

/// The text whose digest is the store key of `formula`, installed by
/// `method` on `platform`.
pub fn store_key_input(formula: &Formula, method: &InstallMethod, platform: &Platform) -> (text:
    String)
    ensures
        text@ == store_key_text(
            formula.name@,
            formula.version.upstream@,
            formula.version.revision,
            formula.version.rebuild,
            method.checksum(),
            platform.tag.key(),
        ),
{
    let sum = method.checksum_text();
    let key = platform.tag.catalog_key();
    store_key_material(formula.name.as_str(), &formula.version, sum.as_str(), key.as_str())
}

/// Accepts a fetched file whose digest is `actual`: where a digest is
/// expected, the two have to be the same text.
pub fn verify_digest(url: &str, expected: Option<&str>, actual: &str) -> (res: Result<(), Error>)
    ensures
        expected is None || expected->0@ == actual@ ==> res is Ok,
        expected is Some && expected->0@ != actual@ ==> res is Err && res->Err_0.is_mismatch(
            url@,
            expected->0@,
            actual@,
        ),
{
    match expected {
        None => Ok(()),
        Some(want) => {
            let w = chars_of(want);
            let a = chars_of(actual);
            if same_chars(&w, &a) {
                Ok(())
            } else {
                Err(
                    Error::ChecksumMismatch {
                        url: String::from_str(url),
                        expected: String::from_str(want),
                        actual: String::from_str(actual),
                    },
                )
            }
        },
    }
}

/// The failure of the installation of `name`, seen from the installation:
/// a failed execution during its build is a build error that carries what
/// the execution reported, and any other failure stays what it is.
pub fn build_failure(name: &str, failure: Error) -> (err: Error)
    ensures
        failure is ExecutionError ==> err.is_build_error(name@, failure->ExecutionError_message@),
        !(failure is ExecutionError) ==> err == failure,
{
    match failure {
        Error::ExecutionError { message } => Error::BuildError {
            name: String::from_str(name),
            tail: message,
        },
        other => other,
    }
}

/// Whether the formula `name` is recorded with the keg `key`.
pub open spec fn recorded_with(store: Store, name: Seq<char>, key: Seq<char>) -> bool {
    let at = key_position(record_names(store.records()), name);
    at < store.records().len() && store.records()[at].store_key@ == key
}

/// Signals that the formula `name` is recorded with the keg `key` already,
/// and in which version: there is nothing to install then.
pub fn check_installed(store: &Store, name: &str, key: &str) -> (res: Result<(), Error>)
    ensures
        !recorded_with(*store, name@, key@) ==> res is Ok,
        recorded_with(*store, name@, key@) ==> res is Err && res->Err_0.is_already_installed(
            name@,
            store.records()[key_position(record_names(store.records()), name@)].version@,
        ),
{
    proof {
        lemma_key_found(record_names(store.records()), name@);
    }
    match store.get(name) {
        Some(record) => {
            let have = chars_of(record.store_key.as_str());
            let want = chars_of(key);
            if same_chars(&have, &want) {
                Err(
                    Error::AlreadyInstalled {
                        name: String::from_str(name),
                        version: record.version.clone(),
                    },
                )
            } else {
                Ok(())
            }
        },
        None => Ok(()),
    }
}

/// A step of the installation of one formula.
#[derive(Debug, Clone, Copy, PartialEq, Eq, Structural)]
pub enum Step {
    /// Fetch the bottle and verify it.
    Fetch,
    /// Unpack the bottle into the staged keg.
    Unpack,
    /// Build the source, which fills the staged keg.
    Build,
    /// Commit the staged keg.
    Commit,
    /// Link the keg into the prefix.
    Link,
    /// Record the formula as installed.
    Record,
    /// Nothing is left to do.
    Done,
}

/// Where the installation of the formula `name` from the keg `key` begins.
pub open spec fn first_step_spec(
    store: Store,
    name: Seq<char>,
    key: Seq<char>,
    source: bool,
    no_link: bool,
) -> Step {
    if recorded_with(store, name, key) && store.kegs().contains(key) {
        Step::Done
    } else if store.kegs().contains(key) {
        if no_link {
            Step::Record
        } else {
            Step::Link
        }
    } else if source {
        Step::Build
    } else {
        Step::Fetch
    }
}

/// Where the installation of the formula `name` from the keg `key` begins:
/// nowhere where it is recorded with that keg already; at the link, or at
/// the record where nothing is linked, where the store holds the keg; else
/// at the build or at the fetch.
pub fn first_step(store: &Store, name: &str, key: &str, source: bool, no_link: bool) -> (step: Step)
    ensures
        step == first_step_spec(*store, name@, key@, source, no_link),
{
    let known = store.contains(key);
    let same = check_installed(store, name, key).is_err();
    if same && known {
        Step::Done
    } else if known {
        if no_link {
            Step::Record
        } else {
            Step::Link
        }
    } else if source {
        Step::Build
    } else {
        Step::Fetch
    }
}

/// The step that follows `step` where it succeeded.
pub open spec fn step_after(step: Step, no_link: bool) -> Step {
    match step {
        Step::Fetch => Step::Unpack,
        Step::Unpack => Step::Commit,
        Step::Build => Step::Commit,
        Step::Commit => if no_link {
            Step::Record
        } else {
            Step::Link
        },
        Step::Link => Step::Record,
        Step::Record => Step::Done,
        Step::Done => Step::Done,
    }
}

/// The step that follows `step` where it succeeded. A step that fails ends
/// the installation of the formula: what was staged stays staged, and
/// nothing is linked or recorded.
pub fn next_step(step: Step, no_link: bool) -> (next: Step)
    ensures
        next == step_after(step, no_link),
{
    match step {
        Step::Fetch => Step::Unpack,
        Step::Unpack => Step::Commit,
        Step::Build => Step::Commit,
        Step::Commit => if no_link {
            Step::Record
        } else {
            Step::Link
        },
        Step::Link => Step::Record,
        Step::Record => Step::Done,
        Step::Done => Step::Done,
    }
}

} // verus!
