//! Which formulas a formula needs, on a platform and in a mode, and which
//! formulas a request reaches through such needs.
//!
//! Needs at run time are always followed, and with them the recommended
//! ones when the mode is `Install`. Needs at build time are followed for a
//! formula that is built from source. Optional needs and those of tests are
//! never followed. What macOS ships itself is needed on other systems only:
//! what is marked for the build with the needs at build time, what is marked
//! for tests never, the rest with the needs at run time.

use vstd::prelude::*;
use crate::formula::bottle::{has_bottle, selected_position};
use crate::formula::names::lookup;
use crate::formula::types::{Formula, MacosUse, OsFamily, Platform, UsesFromMacos};

verus! {

/// What a resolution is for.
#[derive(Debug, Clone, Copy, PartialEq, Eq, Structural)]
pub enum ResolveMode {
    /// Installing what was asked for: recommended dependencies come along.
    Install,
    /// Installing a manifest: recommended dependencies come only if listed.
    Bundle,
}

/// Against what a request is resolved: the index snapshot, the host
/// platform and the mode.
pub struct Setting {
    pub index: Seq<Formula>,
    pub platform: Platform,
    pub mode: ResolveMode,
}

/// The names of those of `uses` that are marked `when`, in order.
pub open spec fn macos_names(uses: Seq<UsesFromMacos>, when: MacosUse) -> Seq<Seq<char>>
    decreases uses.len(),
{
    if uses.len() == 0 {
        Seq::empty()
    } else if uses.last().when == when {
        macos_names(uses.drop_last(), when).push(uses.last().name@)
    } else {
        macos_names(uses.drop_last(), when)
    }
}

/// What `formula` takes from macOS and therefore needs elsewhere, as far as
/// it is marked `when`: nothing on macOS itself.
pub open spec fn off_macos_names(formula: Formula, platform: Platform, when: MacosUse) -> Seq<
    Seq<char>,
> {
    if platform.tag.os_family == OsFamily::Macos {
        Seq::empty()
    } else {
        macos_names(formula.uses_from_macos@, when)
    }
}

/// Whether `formula` is built from source on `platform`: no bottle is
/// selected, and there is a source.
pub open spec fn from_source(formula: Formula, platform: Platform) -> bool {
    selected_position(formula.bottles@, platform) is None && formula.source_url is Some
}

/// Whether `formula` cannot be installed on `platform`: no bottle is
/// selected, and there is no source.
pub open spec fn unsupported(formula: Formula, platform: Platform) -> bool {
    selected_position(formula.bottles@, platform) is None && formula.source_url is None
}

/// The names that `formula` needs at run time, in the order in which they
/// are followed.
pub open spec fn runtime_names(formula: Formula, platform: Platform, mode: ResolveMode) -> Seq<
    Seq<char>,
> {
    formula.runtime.deep_view() + (if mode == ResolveMode::Install {
        formula.recommended.deep_view()
    } else {
        Seq::empty()
    }) + off_macos_names(formula, platform, MacosUse::Always)
}

/// The names that `formula` needs for its build, in the order in which they
/// are followed: none where it is not built from source.
pub open spec fn build_names(formula: Formula, platform: Platform) -> Seq<Seq<char>> {
    if from_source(formula, platform) {
        formula.build.deep_view() + off_macos_names(formula, platform, MacosUse::Build)
    } else {
        Seq::empty()
    }
}

impl Setting {
    /// The names that the record `u` needs: those at run time first, then
    /// those of the build.
    pub open spec fn dep_names(self, u: int) -> Seq<Seq<char>> {
        runtime_names(self.index[u], self.platform, self.mode) + build_names(
            self.index[u],
            self.platform,
        )
    }

    /// How many of the names that `u` needs are needed at run time.
    pub open spec fn runtime_count(self, u: int) -> int {
        runtime_names(self.index[u], self.platform, self.mode).len() as int
    }

    /// Whether the record `u` needs the record `v`.
    pub open spec fn edge(self, u: int, v: int) -> bool {
        exists|k: int|
            0 <= k < self.dep_names(u).len() && lookup(self.index, #[trigger] self.dep_names(u)[k])
                == Some(v)
    }

    /// Whether the record `u` needs the record `v` at run time.
    pub open spec fn runtime_edge(self, u: int, v: int) -> bool {
        exists|k: int|
            0 <= k < self.runtime_count(u) && lookup(self.index, #[trigger] self.dep_names(u)[k])
                == Some(v)
    }

    /// Whether `v` is the record of one of the `requested` names.
    pub open spec fn is_root(self, requested: Seq<Seq<char>>, v: int) -> bool {
        exists|i: int| 0 <= i < requested.len() && lookup(self.index, #[trigger] requested[i]) == Some(v)
    }

    /// Whether needs lead from a requested record to `v` in `d` steps.
    pub open spec fn member_at(self, requested: Seq<Seq<char>>, v: int, d: nat) -> bool
        decreases d,
    {
        if d == 0 {
            self.is_root(requested, v)
        } else {
            exists|u: int| self.member_at(requested, u, (d - 1) as nat) && #[trigger] self.edge(u, v)
        }
    }

    /// Whether `v` belongs to the closure of the request: it was requested,
    /// or a record of the closure needs it.
    pub open spec fn member(self, requested: Seq<Seq<char>>, v: int) -> bool {
        exists|d: nat| self.member_at(requested, v, d)
    }

    /// Whether the request names a formula that the snapshot lacks, or
    /// reaches a record that needs one.
    pub open spec fn missing(self, requested: Seq<Seq<char>>) -> bool {
        ||| exists|i: int|
            0 <= i < requested.len() && lookup(self.index, #[trigger] requested[i]) is None
        ||| exists|u: int, k: int|
            self.member(requested, u) && 0 <= k < self.dep_names(u).len() && lookup(
                self.index,
                #[trigger] self.dep_names(u)[k],
            ) is None
    }

    /// Whether `name` is a requested or needed name that the snapshot lacks.
    pub open spec fn is_missing_name(self, requested: Seq<Seq<char>>, name: Seq<char>) -> bool {
        &&& lookup(self.index, name) is None
        &&& {
            ||| exists|i: int| 0 <= i < requested.len() && #[trigger] requested[i] == name
            ||| exists|u: int, k: int|
                self.member(requested, u) && 0 <= k < self.dep_names(u).len()
                    && #[trigger] self.dep_names(u)[k] == name
        }
    }

    /// Whether the closure holds a record that the platform cannot install.
    pub open spec fn blocked(self, requested: Seq<Seq<char>>) -> bool {
        exists|u: int| #[trigger]
            self.member(requested, u) && unsupported(self.index[u], self.platform)
    }

    /// Whether the record `u` needs one of the records of `knot`.
    #[verifier::opaque]
    pub open spec fn needs_one_of(self, u: int, knot: Set<int>) -> bool {
        exists|v: int| knot.contains(v) && #[trigger] self.edge(u, v)
    }

    /// Whether `knot` is a set of records of the closure each of which needs
    /// one of the set: no order can place any of them.
    pub open spec fn is_knot(self, requested: Seq<Seq<char>>, knot: Set<int>) -> bool {
        &&& exists|u: int| knot.contains(u)
        &&& forall|u: int| #[trigger]
            knot.contains(u) ==> self.member(requested, u) && self.needs_one_of(u, knot)
    }

    /// Whether the needs within the closure run in a circle.
    pub open spec fn cyclic(self, requested: Seq<Seq<char>>) -> bool {
        exists|knot: Set<int>| self.is_knot(requested, knot)
    }
}

/// Appends the names `names` to `out`.
pub fn push_names(out: &mut Vec<String>, names: &Vec<String>)
    ensures
        final(out).deep_view() == old(out).deep_view() + names.deep_view(),
{
    let mut i: usize = 0;
    assert(out.deep_view() =~= old(out).deep_view() + names.deep_view().take(0));
    while i < names.len()
        invariant
            i <= names.len(),
            out.deep_view() == old(out).deep_view() + names.deep_view().take(i as int),
        decreases names.len() - i,
    {
        let ghost before = out.deep_view();
        let name = names[i].clone();
        out.push(name);
        assert(out.deep_view() =~= before.push(names@[i as int]@));
        assert(out.deep_view() =~= old(out).deep_view() + names.deep_view().take(i + 1));
        i = i + 1;
    }
    assert(names.deep_view().take(i as int) =~= names.deep_view());
}

/// Appends to `out` the names of those of `uses` that are marked `when`.
pub fn push_macos_names(out: &mut Vec<String>, uses: &Vec<UsesFromMacos>, when: MacosUse)
    ensures
        final(out).deep_view() == old(out).deep_view() + macos_names(uses@, when),
{
    let mut i: usize = 0;
    assert(uses@.take(0) =~= Seq::<UsesFromMacos>::empty());
    assert(out.deep_view() =~= old(out).deep_view() + macos_names(uses@.take(0), when));
    while i < uses.len()
        invariant
            i <= uses.len(),
            out.deep_view() == old(out).deep_view() + macos_names(uses@.take(i as int), when),
        decreases uses.len() - i,
    {
        let ghost before = out.deep_view();
        let ghost next = uses@.take(i + 1);
        assert(next.drop_last() =~= uses@.take(i as int));
        assert(next.last() == uses@[i as int]);
        if uses[i].when == when {
            let name = uses[i].name.clone();
            out.push(name);
            assert(out.deep_view() =~= before.push(uses@[i as int].name@));
            assert(out.deep_view() =~= old(out).deep_view() + macos_names(next, when));
        }
        i = i + 1;
    }
    assert(uses@.take(i as int) =~= uses@);
}

/// The names that `formula` needs at run time, in the order in which they
/// are followed.
pub fn runtime_deps(formula: &Formula, platform: &Platform, mode: ResolveMode) -> (names: Vec<
    String,
>)
    ensures
        names.deep_view() == runtime_names(*formula, *platform, mode),
{
    let mut names: Vec<String> = Vec::new();
    assert(names.deep_view() =~= Seq::<Seq<char>>::empty());
    push_names(&mut names, &formula.runtime);
    if mode == ResolveMode::Install {
        push_names(&mut names, &formula.recommended);
    }
    if platform.tag.os_family != OsFamily::Macos {
        push_macos_names(&mut names, &formula.uses_from_macos, MacosUse::Always);
    }
    assert(names.deep_view() =~= runtime_names(*formula, *platform, mode));
    names
}

/// Whether `formula` is built from source on `platform`.
pub fn builds_from_source(formula: &Formula, platform: &Platform) -> (source: bool)
    ensures
        source == from_source(*formula, *platform),
{
    formula.source_url.is_some() && !has_bottle(formula, platform)
}

/// Whether `formula` cannot be installed on `platform`.
pub fn is_unsupported(formula: &Formula, platform: &Platform) -> (b: bool)
    ensures
        b == unsupported(*formula, *platform),
{
    formula.source_url.is_none() && !has_bottle(formula, platform)
}

/// The names that `formula` needs for its build, in the order in which they
/// are followed: none where it is not built from source.
pub fn build_deps(formula: &Formula, platform: &Platform) -> (names: Vec<String>)
    ensures
        names.deep_view() == build_names(*formula, *platform),
{
    let mut names: Vec<String> = Vec::new();
    assert(names.deep_view() =~= Seq::<Seq<char>>::empty());
    if builds_from_source(formula, platform) {
        push_names(&mut names, &formula.build);
        if platform.tag.os_family != OsFamily::Macos {
            push_macos_names(&mut names, &formula.uses_from_macos, MacosUse::Build);
        }
    }
    assert(names.deep_view() =~= build_names(*formula, *platform));
    names
}

} // verus!
