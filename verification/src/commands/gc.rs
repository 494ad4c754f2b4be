//! The `gc` command.

use vstd::prelude::*;
use crate::linker::{owned_paths, without_owner, Prefix};
use crate::store::{drop_names, drop_unnamed, keep_live, keep_named, live, GcReport, Store};

verus! {

/// What a collection of garbage leaves to do on disk.
#[derive(Debug, PartialEq, Eq)]
pub struct GcActions {
    /// The links to remove from the prefix: those of the formulas whose
    /// records were dropped.
    pub unlink: Vec<String>,
    /// The records that were dropped, the kegs to remove and the staged
    /// kegs to forget.
    pub report: GcReport,
}

/// The link map `links` once the first `upto` of `names` own nothing.
pub open spec fn links_without(
    links: Seq<(Seq<char>, Seq<char>)>,
    names: Seq<Seq<char>>,
    upto: int,
) -> Seq<(Seq<char>, Seq<char>)>
    decreases upto,
{
    if upto <= 0 {
        links
    } else {
        without_owner(
            links_without(links, names, upto - 1),
            names[upto - 1],
            links_without(links, names, upto - 1).len() as int,
        )
    }
}

/// The paths that the first `upto` of `names` own in `links`, name by name.
pub open spec fn paths_owned_by(
    links: Seq<(Seq<char>, Seq<char>)>,
    names: Seq<Seq<char>>,
    upto: int,
) -> Seq<Seq<char>>
    decreases upto,
{
    if upto <= 0 {
        Seq::empty()
    } else {
        paths_owned_by(links, names, upto - 1) + owned_paths(
            links_without(links, names, upto - 1),
            names[upto - 1],
            links_without(links, names, upto - 1).len() as int,
        )
    }
}

/// Collects garbage: drops the records of the formulas that are not in
/// use, takes their links out of the link map, and removes the kegs that
/// no remaining record names.
///
/// Afterwards every installed record names a keg of the store, and the keg
/// of every formula in use is kept.
pub fn execute(store: &mut Store, prefix: &mut Prefix) -> (actions: GcActions)
    requires
        old(store).wf(),
        old(prefix).wf(),
    ensures
        final(store).wf(),
        final(prefix).wf(),
        forall|i: int|
            0 <= i < final(store).records().len() ==> final(store).kegs().contains(
                (#[trigger] final(store).records()[i]).store_key@,
            ),
        forall|j: int|
            0 <= j < old(store).records().len() && live(old(store).records(), j)
                ==> final(store).kegs().contains(
                (#[trigger] old(store).records()[j]).store_key@,
            ) && final(store).records().contains(old(store).records()[j]),
        final(store).records() == keep_live(
            old(store).records(),
            old(store).records().len() as int,
        ),
        final(store).kegs() == keep_named(
            old(store).kegs(),
            final(store).records(),
            old(store).kegs().len() as int,
        ),
        final(store).staged() == Seq::<Seq<char>>::empty(),
        actions.report.dropped.deep_view() == drop_names(
            old(store).records(),
            old(store).records().len() as int,
        ),
        actions.report.removed.deep_view() == drop_unnamed(
            old(store).kegs(),
            final(store).records(),
            old(store).kegs().len() as int,
        ),
        actions.report.pruned.deep_view() == old(store).staged(),
        final(prefix)@ == links_without(
            old(prefix)@,
            actions.report.dropped.deep_view(),
            actions.report.dropped.len() as int,
        ),
        actions.unlink.deep_view() == paths_owned_by(
            old(prefix)@,
            actions.report.dropped.deep_view(),
            actions.report.dropped.len() as int,
        ),
{
    let report = store.gc();
    let ghost names = report.dropped.deep_view();
    let ghost links = prefix@;
    let mut unlink: Vec<String> = Vec::new();
    let mut i: usize = 0;
    assert(unlink.deep_view() =~= Seq::<Seq<char>>::empty());
    while i < report.dropped.len()
        invariant
            i <= report.dropped.len(),
            names == report.dropped.deep_view(),
            prefix.wf(),
            prefix@ == links_without(links, names, i as int),
            unlink.deep_view() == paths_owned_by(links, names, i as int),
        decreases report.dropped.len() - i,
    {
        let ghost have = unlink.deep_view();
        assert(names[i as int] == report.dropped@[i as int]@);
        let mut removed = prefix.unlink(report.dropped[i].as_str());
        let ghost gone = removed.deep_view();
        unlink.append(&mut removed);
        assert(unlink.deep_view() =~= have + gone);
        i = i + 1;
    }
    GcActions { unlink, report }
}

} // verus!
