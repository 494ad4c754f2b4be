//! Which prebuilt artifact a platform takes.
//!
//! The rules, in order: the bottle of the platform's own tag; where the
//! catalog lists an `all` bottle, the bottle of the same architecture on the
//! previous version of the operating system; the `all` bottle; a build from
//! source where the formula has a source; else the platform is unsupported.

use vstd::prelude::*;
use crate::formula::types::{catalog_key, BottleFile, Formula, Platform};
use crate::text::{chars_of, same_chars};

verus! {

/// What was selected for a formula on a platform.
#[derive(Debug, PartialEq, Eq)]
pub enum SelectedBottle {
    /// This prebuilt artifact.
    Bottle { url: String, sha256: String, rebuild: u32 },
    /// No artifact fits; the formula is built from its source.
    NoBottleBuildFromSource,
    /// No artifact fits and there is no source.
    Unsupported,
}

/// Where the catalog lists `tag` first, or the catalog's length where it
/// does not.
pub open spec fn tag_position(bottles: Seq<BottleFile>, tag: Seq<char>) -> int
    decreases bottles.len(),
{
    if bottles.len() == 0 {
        0
    } else if bottles[0].tag@ == tag {
        0
    } else {
        1 + tag_position(bottles.skip(1), tag)
    }
}

/// Whether the catalog lists `tag`.
pub open spec fn lists_tag(bottles: Seq<BottleFile>, tag: Seq<char>) -> bool {
    tag_position(bottles, tag) < bottles.len()
}

/// The place in the catalog of the bottle that the rules select, if any.
pub open spec fn selected_position(bottles: Seq<BottleFile>, platform: Platform) -> Option<int> {
    if lists_tag(bottles, platform.tag.key()) {
        Some(tag_position(bottles, platform.tag.key()))
    } else if lists_tag(bottles, "all"@) {
        if platform.previous_key() is Some && lists_tag(bottles, platform.previous_key()->0) {
            Some(tag_position(bottles, platform.previous_key()->0))
        } else {
            Some(tag_position(bottles, "all"@))
        }
    } else {
        None
    }
}

impl SelectedBottle {
    /// Whether this is the artifact `file`.
    pub open spec fn is_file(self, file: BottleFile) -> bool {
        self matches SelectedBottle::Bottle { url, sha256, rebuild } && url@ == file.url@ && sha256@
            == file.sha256@ && rebuild == file.rebuild
    }
}

/// Whether `selected` is what the rules select for `formula` on `platform`.
pub open spec fn is_selection(formula: Formula, platform: Platform, selected: SelectedBottle) -> bool {
    match selected_position(formula.bottles@, platform) {
        Some(i) => selected.is_file(formula.bottles@[i]),
        None => if formula.source_url is Some {
            selected is NoBottleBuildFromSource
        } else {
            selected is Unsupported
        },
    }
}

/// `tag_position` stays within the catalog, passes no bottle of the tag and
/// stops on one.
pub proof fn lemma_tag_position(bottles: Seq<BottleFile>, tag: Seq<char>, i: int)
    requires
        0 <= i <= bottles.len(),
        forall|j: int| 0 <= j < i ==> (#[trigger] bottles[j]).tag@ != tag,
        i < bottles.len() ==> bottles[i].tag@ == tag,
    ensures
        tag_position(bottles, tag) == i,
    decreases i,
{
    if i > 0 {
        let rest = bottles.skip(1);
        assert(bottles[0].tag@ != tag);
        assert forall|j: int| 0 <= j < i - 1 implies (#[trigger] rest[j]).tag@ != tag by {
            assert(rest[j] == bottles[j + 1]);
        }
        lemma_tag_position(rest, tag, i - 1);
    }
}

/// Where the catalog lists `tag` first, or the catalog's length.
pub fn find_tag(bottles: &Vec<BottleFile>, tag: &str) -> (i: usize)
    ensures
        i == tag_position(bottles@, tag@),
        i <= bottles.len(),
{
    let wanted = chars_of(tag);
    let mut i: usize = 0;
    while i < bottles.len()
        invariant
            i <= bottles.len(),
            wanted@ == tag@,
            forall|j: int| 0 <= j < i ==> (#[trigger] bottles@[j]).tag@ != tag@,
        decreases bottles.len() - i,
    {
        let listed = chars_of(bottles[i].tag.as_str());
        if same_chars(&listed, &wanted) {
            proof {
                lemma_tag_position(bottles@, tag@, i as int);
            }
            return i;
        }
        i = i + 1;
    }
    proof {
        lemma_tag_position(bottles@, tag@, i as int);
    }
    i
}

/// Whether the rules select a bottle of `formula` for `platform`.
pub fn has_bottle(formula: &Formula, platform: &Platform) -> (b: bool)
    ensures
        b == selected_position(formula.bottles@, *platform) is Some,
{
    let bottles = &formula.bottles;
    let n = bottles.len();
    let key = platform.tag.catalog_key();
    find_tag(bottles, key.as_str()) < n || find_tag(bottles, "all") < n
}

fn take_file(file: &BottleFile) -> (selected: SelectedBottle)
    ensures
        selected.is_file(*file),
{
    SelectedBottle::Bottle {
        url: file.url.clone(),
        sha256: file.sha256.clone(),
        rebuild: file.rebuild,
    }
}

/// Selects the prebuilt artifact of `formula` for `platform`, or says that
/// the formula is built from source, or that the platform is unsupported.
pub fn select_bottle(formula: &Formula, platform: &Platform) -> (selected: SelectedBottle)
    ensures
        is_selection(*formula, *platform, selected),
        selected is Unsupported <==> selected_position(formula.bottles@, *platform) is None
            && formula.source_url is None,
{
    let bottles = &formula.bottles;
    let n = bottles.len();
    let key = platform.tag.catalog_key();
    let exact = find_tag(bottles, key.as_str());
    if exact < n {
        return take_file(&bottles[exact]);
    }
    let all = find_tag(bottles, "all");
    if all < n {
        match &platform.previous_os_version {
            Some(version) => {
                let older_key = catalog_key(platform.tag.cpu_arch.as_str(), version.as_str());
                let older = find_tag(bottles, older_key.as_str());
                if older < n {
                    return take_file(&bottles[older]);
                }
            },
            None => {},
        }
        return take_file(&bottles[all]);
    }
    if formula.source_url.is_some() {
        SelectedBottle::NoBottleBuildFromSource
    } else {
        SelectedBottle::Unsupported
    }
}

} // verus!
