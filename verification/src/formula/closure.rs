//! The closure of a request: every record that the request reaches, found
//! breadth first, with what each needs and how far from the request it lies.

use vstd::prelude::*;
use crate::formula::deps::{build_deps, push_names, runtime_deps, ResolveMode, Setting};
use crate::formula::names::{find_formula, lookup};
use crate::formula::types::{Formula, Platform};
use crate::places::lemma_room_left;
use crate::store::lemma_push_contains;

verus! {

/// The records that a request reaches, in the order in which a
/// breadth-first search finds them.
pub struct Closure {
    /// The records, as places in the snapshot.
    pub order: Vec<usize>,
    /// For each record of `order`, the fewest steps from the request to it.
    pub depth: Vec<usize>,
    /// For each record of the snapshot its place in `order`, or the length
    /// of the snapshot where the request does not reach it.
    pub position: Vec<usize>,
    /// For each record of `order` that was expanded, the records that it
    /// needs: those at run time first, then those of the build.
    pub deps: Vec<Vec<usize>>,
    /// For each record of `order` that was expanded, how many of its needs
    /// are needs at run time.
    pub runtime: Vec<usize>,
}

impl Closure {
    /// Whether `order` and `position` describe the same set of records.
    #[verifier::opaque]
    pub open spec fn indexed(&self, n: int) -> bool {
        &&& self.position.len() == n
        &&& self.order.len() <= n
        &&& self.depth.len() == self.order.len()
        &&& forall|i: int|
            0 <= i < self.order.len() ==> (#[trigger] self.order[i]) < n
                && self.position[self.order[i] as int] == i
        &&& forall|g: int|
            0 <= g < n && (#[trigger] self.position[g]) != n ==> self.position[g]
                < self.order.len() && self.order[self.position[g] as int] == g
    }

    /// Whether every record of `order` is reached from the request in as
    /// many steps as `depth` says, the last of them from one of the first
    /// `k` records, and whether the depths never fall along `order`.
    #[verifier::opaque]
    pub open spec fn layered(&self, s: Setting, requested: Seq<Seq<char>>, k: int) -> bool {
        &&& forall|i: int|
            0 <= i < self.order.len() ==> (#[trigger] self.depth[i]) <= i && (self.depth[i] == 0
                <==> s.is_root(requested, self.order[i] as int)) && s.member_at(
                requested,
                self.order[i] as int,
                self.depth[i] as nat,
            )
        &&& forall|i: int|
            0 <= i < self.order.len() && (#[trigger] self.depth[i]) > 0 ==> exists|j: int|
                0 <= j < k && j < i && (#[trigger] self.depth[j]) + 1 == self.depth[i] && s.edge(
                    self.order[j] as int,
                    self.order[i] as int,
                )
        &&& forall|i: int, j: int|
            0 <= i <= j < self.order.len() ==> (#[trigger] self.depth[i]) <= (
            #[trigger] self.depth[j])
    }

    /// Whether every requested record belongs to `order`.
    #[verifier::opaque]
    pub open spec fn rooted(&self, s: Setting, requested: Seq<Seq<char>>) -> bool {
        forall|g: int| #[trigger]
            s.is_root(requested, g) ==> 0 <= g < s.index.len() && self.position[g] != s.index.len()
    }

    /// Whether the first `upto` needs of the record at place `i` are
    /// resolved by `ids`: each is the record that its name stands for,
    /// belongs to `order`, and lies at most one step deeper; or it is the
    /// length of the snapshot, where the snapshot has no record of the name.
    #[verifier::opaque]
    pub open spec fn resolved(&self, s: Setting, i: int, ids: Seq<usize>, upto: int) -> bool {
        forall|j: int|
            0 <= j < upto ==> (lookup(s.index, s.dep_names(self.order[i] as int)[j]) is None ==> (
            #[trigger] ids[j]) == s.index.len()) && (lookup(
                s.index,
                s.dep_names(self.order[i] as int)[j],
            ) is Some ==> lookup(s.index, s.dep_names(self.order[i] as int)[j]) == Some(
                ids[j] as int,
            ) && ids[j] < s.index.len() && self.position[ids[j] as int] != s.index.len()
                && self.depth[self.position[ids[j] as int] as int] <= self.depth[i] + 1)
    }

    /// Whether the record at place `i` was expanded.
    pub open spec fn expanded(&self, s: Setting, i: int) -> bool {
        &&& self.runtime[i] == s.runtime_count(self.order[i] as int)
        &&& self.deps[i].len() == s.dep_names(self.order[i] as int).len()
        &&& self.resolved(s, i, self.deps[i]@, self.deps[i].len() as int)
    }

    /// Whether the first `k` records were expanded.
    #[verifier::opaque]
    pub open spec fn all_expanded(&self, s: Setting, k: int) -> bool {
        forall|i: int| 0 <= i < k ==> #[trigger] self.expanded(s, i)
    }

    /// Whether the search stands soundly with its first `k` records
    /// expanded.
    pub open spec fn partial(&self, s: Setting, requested: Seq<Seq<char>>, k: int) -> bool {
        &&& 0 <= k <= self.order.len()
        &&& self.deps.len() == k
        &&& self.runtime.len() == k
        &&& self.indexed(s.index.len() as int)
        &&& self.layered(s, requested, k)
        &&& k < self.order.len() ==> self.depth[self.order.len() - 1] <= self.depth[k] + 1
        &&& self.rooted(s, requested)
        &&& self.all_expanded(s, k)
    }

    /// Whether the search stands soundly while the record at place `k` is
    /// being expanded and the first of its needs are resolved by `ids`.
    pub open spec fn expanding(
        &self,
        s: Setting,
        requested: Seq<Seq<char>>,
        k: int,
        ids: Seq<usize>,
    ) -> bool {
        &&& 0 <= k < self.order.len()
        &&& self.deps.len() == k
        &&& self.runtime.len() == k
        &&& self.indexed(s.index.len() as int)
        &&& self.layered(s, requested, k + 1)
        &&& self.depth[self.order.len() - 1] <= self.depth[k] + 1
        &&& self.rooted(s, requested)
        &&& self.all_expanded(s, k)
        &&& self.resolved(s, k, ids, ids.len() as int)
    }

    /// Whether the search is through: every record that it found was
    /// expanded.
    pub open spec fn searched(&self, s: Setting, requested: Seq<Seq<char>>) -> bool {
        self.partial(s, requested, self.order.len() as int)
    }

    /// Whether the search is through and came upon no name that the
    /// snapshot lacks.
    pub open spec fn complete(&self, s: Setting, requested: Seq<Seq<char>>) -> bool {
        self.searched(s, requested) && !s.missing(requested)
    }

    /// Whether `self` is `before` with the record `g` added at depth `d`.
    pub open spec fn entered(&self, before: Closure, g: int, d: int) -> bool {
        &&& self.order@ == before.order@.push(g as usize)
        &&& self.depth@ == before.depth@.push(d as usize)
        &&& self.position@ == before.position@.update(g, before.order.len())
        &&& self.deps == before.deps
        &&& self.runtime == before.runtime
    }
}

/// Adds the record `g`, which was not reached before, at depth `d`.
fn enter(c: &mut Closure, g: usize, d: usize, Ghost(n): Ghost<int>)
    requires
        old(c).indexed(n),
        g < n,
        old(c).position.len() == n,
        old(c).position[g as int] == n,
    ensures
        final(c).entered(*old(c), g as int, d as int),
        final(c).indexed(n),
        final(c).order.len() <= n,
{
    reveal(Closure::indexed);
    proof {
        lemma_room_left(c.order@, c.position@, n, g as int);
    }
    let place = c.order.len();
    c.position.set(g, place);
    c.order.push(g);
    c.depth.push(d);
    proof {
        assert forall|i: int| 0 <= i < c.order.len() implies (#[trigger] c.order[i]) < n
            && c.position[c.order[i] as int] == i by {
            if i < place {
                assert(old(c).order[i] < n && old(c).position[old(c).order[i] as int] == i);
            }
        }
        assert forall|h: int| 0 <= h < n && (#[trigger] c.position[h]) != n implies c.position[h]
            < c.order.len() && c.order[c.position[h] as int] == h by {
            if h != g {
                assert(old(c).position[h] != n);
            }
        }
    }
}

/// What holds of the places of a search.
pub proof fn lemma_indexed(c: Closure, n: int)
    requires
        c.indexed(n),
    ensures
        c.position.len() == n,
        c.order.len() <= n,
        c.depth.len() == c.order.len(),
        forall|i: int|
            0 <= i < c.order.len() ==> (#[trigger] c.order[i]) < n && c.position[c.order[i] as int]
                == i,
        forall|g: int|
            0 <= g < n && (#[trigger] c.position[g]) != n ==> c.position[g] < c.order.len()
                && c.order[c.position[g] as int] == g,
{
    reveal(Closure::indexed);
}

/// Needs that were resolved stay resolved when another record is added.
proof fn lemma_resolved_kept(
    before: Closure,
    after: Closure,
    s: Setting,
    g: int,
    d: int,
    i: int,
    ids: Seq<usize>,
    upto: int,
)
    requires
        before.indexed(s.index.len() as int),
        0 <= g < s.index.len(),
        before.position[g] == s.index.len(),
        after.entered(before, g, d),
        0 <= i < before.order.len(),
        before.resolved(s, i, ids, upto),
    ensures
        after.resolved(s, i, ids, upto),
{
    reveal(Closure::resolved);
    lemma_indexed(before, s.index.len() as int);
    let n = s.index.len();
    assert(after.order[i] == before.order[i]);
    assert(after.depth[i] == before.depth[i]);
    assert forall|j: int| 0 <= j < upto implies (lookup(
        s.index,
        s.dep_names(after.order[i] as int)[j],
    ) is None ==> (#[trigger] ids[j]) == n) && (lookup(
        s.index,
        s.dep_names(after.order[i] as int)[j],
    ) is Some ==> lookup(s.index, s.dep_names(after.order[i] as int)[j]) == Some(ids[j] as int)
        && ids[j] < n && after.position[ids[j] as int] != n
        && after.depth[after.position[ids[j] as int] as int] <= after.depth[i] + 1) by {
        if lookup(s.index, s.dep_names(after.order[i] as int)[j]) is Some {
            let v = ids[j];
            assert(before.position[v as int] != n);
            assert(v != g);
            assert(after.position[v as int] == before.position[v as int]);
            assert(before.position[v as int] < before.order.len());
        }
    }
}

/// Records that were expanded stay expanded when another record is added.
proof fn lemma_all_expanded_kept(before: Closure, after: Closure, s: Setting, g: int, d: int, k: int)
    requires
        before.indexed(s.index.len() as int),
        0 <= g < s.index.len(),
        before.position[g] == s.index.len(),
        after.entered(before, g, d),
        0 <= k <= before.order.len(),
        before.deps.len() == k,
        before.all_expanded(s, k),
    ensures
        after.all_expanded(s, k),
{
    reveal(Closure::all_expanded);
    assert forall|i: int| 0 <= i < k implies #[trigger] after.expanded(s, i) by {
        assert(before.expanded(s, i));
        assert(after.order[i] == before.order[i]);
        lemma_resolved_kept(
            before,
            after,
            s,
            g,
            d,
            i,
            before.deps[i]@,
            before.deps[i].len() as int,
        );
    }
}

/// Requested records stay in the search when another record is added.
proof fn lemma_rooted_kept(
    before: Closure,
    after: Closure,
    s: Setting,
    requested: Seq<Seq<char>>,
    g: int,
    d: int,
)
    requires
        before.indexed(s.index.len() as int),
        0 <= g < s.index.len(),
        before.order.len() < s.index.len(),
        after.entered(before, g, d),
        before.rooted(s, requested),
    ensures
        after.rooted(s, requested),
        before.position[g] == s.index.len() ==> !s.is_root(requested, g),
{
    reveal(Closure::rooted);
    lemma_indexed(before, s.index.len() as int);
    assert forall|h: int| #[trigger] s.is_root(requested, h) implies 0 <= h < s.index.len()
        && after.position[h] != s.index.len() by {
        assert(before.position[h] != s.index.len());
    }
}

/// What a member needs is a member one step further from the request.
pub proof fn lemma_member_step(s: Setting, requested: Seq<Seq<char>>, u: int, v: int, d: nat)
    requires
        s.member_at(requested, u, d),
        s.edge(u, v),
    ensures
        s.member_at(requested, v, (d + 1) as nat),
{
    let next = (d + 1) as nat;
    assert(s.member_at(requested, u, (next - 1) as nat));
}

/// The depths never fall along the order of the search.
proof fn lemma_depths_rise(c: Closure, s: Setting, requested: Seq<Seq<char>>, k: int, i: int, j: int)
    requires
        c.layered(s, requested, k),
        0 <= i <= j < c.order.len(),
        c.depth.len() == c.order.len(),
    ensures
        c.depth[i] <= c.depth[j],
{
    reveal(Closure::layered);
}

/// The search is layered with one more record counted as a possible parent.
proof fn lemma_layered_next(c: Closure, s: Setting, requested: Seq<Seq<char>>, k: int)
    requires
        c.layered(s, requested, k),
        c.indexed(s.index.len() as int),
        0 <= k < c.order.len(),
    ensures
        c.layered(s, requested, k + 1),
        k + 1 < c.order.len() ==> c.depth[k] <= c.depth[k + 1],
        c.depth[k] <= k,
        s.member_at(requested, c.order[k] as int, c.depth[k] as nat),
{
    reveal(Closure::layered);
    lemma_indexed(c, s.index.len() as int);
    assert forall|i: int| 0 <= i < c.order.len() && (#[trigger] c.depth[i]) > 0 implies exists|
        j: int,
    |
        0 <= j < k + 1 && j < i && (#[trigger] c.depth[j]) + 1 == c.depth[i] && s.edge(
            c.order[j] as int,
            c.order[i] as int,
        ) by {
        let j = choose|j: int|
            0 <= j < k && j < i && (#[trigger] c.depth[j]) + 1 == c.depth[i] && s.edge(
                c.order[j] as int,
                c.order[i] as int,
            );
        assert(0 <= j < k + 1);
    }
    if k + 1 < c.order.len() {
        assert(c.depth[k] <= c.depth[k + 1]);
    }
    assert(c.depth[k] <= k);
}

/// Adding a record that the record at place `k` needs, one step below it,
/// keeps the search layered.
proof fn lemma_layered_enter(
    before: Closure,
    after: Closure,
    s: Setting,
    requested: Seq<Seq<char>>,
    k: int,
    g: int,
)
    requires
        before.indexed(s.index.len() as int),
        0 <= k < before.order.len(),
        before.layered(s, requested, k + 1),
        before.depth[before.order.len() - 1] <= before.depth[k] + 1,
        s.edge(before.order[k] as int, g),
        !s.is_root(requested, g),
        0 <= g < s.index.len(),
        after.entered(before, g, before.depth[k] + 1),
        before.depth[k] + 1 <= usize::MAX,
    ensures
        after.layered(s, requested, k + 1),
        after.depth[after.order.len() - 1] <= after.depth[k] + 1,
{
    reveal(Closure::layered);
    lemma_indexed(before, s.index.len() as int);
    let p = before.order.len() as int;
    let u = before.order[k] as int;
    let du = before.depth[k] as int;
    assert(after.order[k] == before.order[k]);
    assert(after.depth[k] == before.depth[k]);
    assert(after.order[p] == g);
    assert(after.depth[p] == du + 1);
    assert(s.member_at(requested, u, du as nat));
    lemma_member_step(s, requested, u, g, du as nat);
    assert forall|i: int| 0 <= i < after.order.len() implies (#[trigger] after.depth[i]) <= i && (
    after.depth[i] == 0 <==> s.is_root(requested, after.order[i] as int)) && s.member_at(
        requested,
        after.order[i] as int,
        after.depth[i] as nat,
    ) by {
        if i < p {
            assert(after.depth[i] == before.depth[i]);
            assert(after.order[i] == before.order[i]);
        } else {
            assert(before.depth[k] <= k);
        }
    }
    assert forall|i: int|
        0 <= i < after.order.len() && (#[trigger] after.depth[i]) > 0 implies exists|j: int|
        0 <= j < k + 1 && j < i && (#[trigger] after.depth[j]) + 1 == after.depth[i] && s.edge(
            after.order[j] as int,
            after.order[i] as int,
        ) by {
        if i < p {
            assert(after.depth[i] == before.depth[i]);
            assert(after.order[i] == before.order[i]);
            let j = choose|j: int|
                0 <= j < k + 1 && j < i && (#[trigger] before.depth[j]) + 1 == before.depth[i]
                    && s.edge(before.order[j] as int, before.order[i] as int);
            assert(after.depth[j] == before.depth[j]);
            assert(after.order[j] == before.order[j]);
        } else {
            assert(after.depth[k] + 1 == after.depth[i]);
        }
    }
    assert forall|i: int, j: int| 0 <= i <= j < after.order.len() implies (
    #[trigger] after.depth[i]) <= (#[trigger] after.depth[j]) by {
        if j < p {
            assert(after.depth[i] == before.depth[i]);
            assert(after.depth[j] == before.depth[j]);
        } else if i < p {
            assert(after.depth[i] == before.depth[i]);
            assert(before.depth[i] <= before.depth[p - 1]);
        }
    }
}

/// One more need of the record at place `k` is resolved: by the record
/// `v` that its name stands for, or by the length of the snapshot where the
/// name stands for none.
proof fn lemma_resolved_push(c: Closure, s: Setting, k: int, ids: Seq<usize>, v: usize)
    requires
        c.resolved(s, k, ids, ids.len() as int),
        lookup(s.index, s.dep_names(c.order[k] as int)[ids.len() as int]) is None ==> v
            == s.index.len(),
        lookup(s.index, s.dep_names(c.order[k] as int)[ids.len() as int]) is Some ==> lookup(
            s.index,
            s.dep_names(c.order[k] as int)[ids.len() as int],
        ) == Some(v as int) && v < s.index.len() && c.position[v as int] != s.index.len()
            && c.depth[c.position[v as int] as int] <= c.depth[k] + 1,
    ensures
        c.resolved(s, k, ids.push(v), (ids.len() + 1) as int),
{
    reveal(Closure::resolved);
    let next = ids.push(v);
    let n = s.index.len();
    assert forall|j: int| 0 <= j < ids.len() + 1 implies (lookup(
        s.index,
        s.dep_names(c.order[k] as int)[j],
    ) is None ==> (#[trigger] next[j]) == n) && (lookup(
        s.index,
        s.dep_names(c.order[k] as int)[j],
    ) is Some ==> lookup(s.index, s.dep_names(c.order[k] as int)[j]) == Some(next[j] as int)
        && next[j] < n && c.position[next[j] as int] != n
        && c.depth[c.position[next[j] as int] as int] <= c.depth[k] + 1) by {
        if j < ids.len() {
            assert(next[j] == ids[j]);
        }
    }
}

/// A record of the search lies no deeper than the last.
proof fn lemma_not_below_last(c: Closure, s: Setting, requested: Seq<Seq<char>>, k: int, v: int)
    requires
        c.indexed(s.index.len() as int),
        c.layered(s, requested, k),
        0 <= v < s.index.len(),
        c.position[v] != s.index.len(),
    ensures
        c.order.len() > 0,
        c.depth[c.position[v] as int] <= c.depth[c.order.len() - 1],
{
    reveal(Closure::layered);
    lemma_indexed(c, s.index.len() as int);
}

impl Closure {
    /// Whether every record of `order` was requested and lies at depth 0.
    #[verifier::opaque]
    pub open spec fn all_roots(&self, s: Setting, requested: Seq<Seq<char>>) -> bool {
        &&& self.depth.len() == self.order.len()
        &&& forall|p: int|
            0 <= p < self.order.len() ==> (#[trigger] self.depth[p]) == 0 && s.is_root(
                requested,
                self.order[p] as int,
            )
    }
}

/// What holds of requested records at depth 0.
proof fn lemma_all_roots(c: Closure, s: Setting, requested: Seq<Seq<char>>)
    requires
        c.all_roots(s, requested),
    ensures
        c.depth.len() == c.order.len(),
        forall|p: int| 0 <= p < c.order.len() ==> (#[trigger] c.depth[p]) == 0,
        forall|p: int| 0 <= p < c.order.len() ==> s.is_root(requested, (#[trigger] c.order[p]) as int),
{
    reveal(Closure::all_roots);
    assert forall|p: int| 0 <= p < c.order.len() implies s.is_root(
        requested,
        (#[trigger] c.order[p]) as int,
    ) by {
        assert(c.depth[p] == 0);
    }
}

/// Adding a requested record at depth 0 to requested records at depth 0
/// leaves requested records at depth 0.
proof fn lemma_roots_kept(before: Closure, after: Closure, s: Setting, requested: Seq<Seq<char>>, g: int)
    requires
        before.all_roots(s, requested),
        after.entered(before, g, 0),
        s.is_root(requested, g),
        0 <= g <= usize::MAX,
    ensures
        after.all_roots(s, requested),
{
    lemma_all_roots(before, s, requested);
    let n = before.order.len() as int;
    assert(after.order@.len() == n + 1);
    assert(after.depth@.len() == n + 1);
    assert forall|p: int| 0 <= p < after.order.len() implies (#[trigger] after.depth[p]) == 0
        && s.is_root(requested, after.order[p] as int) by {
        if p < n {
            assert(after.depth@[p] == before.depth@[p]);
            assert(after.order@[p] == before.order@[p]);
            assert(before.depth[p] == 0);
            assert(s.is_root(requested, before.order[p] as int));
        } else {
            assert(after.depth@[p] == 0);
            assert(after.order@[p] == g as usize);
        }
    }
    assert(after.all_roots(s, requested)) by {
        reveal(Closure::all_roots);
    }
}

/// Requested records at depth 0 are layered.
proof fn lemma_roots_layered(c: Closure, s: Setting, requested: Seq<Seq<char>>)
    requires
        c.all_roots(s, requested),
    ensures
        c.layered(s, requested, 0),
        c.order.len() > 0 ==> c.depth[c.order.len() - 1] == 0,
{
    lemma_all_roots(c, s, requested);
    assert forall|p: int| 0 <= p < c.order.len() implies (#[trigger] c.depth[p]) <= p && (c.depth[p]
        == 0 <==> s.is_root(requested, c.order[p] as int)) && s.member_at(
        requested,
        c.order[p] as int,
        c.depth[p] as nat,
    ) by {
        assert(c.depth[p] == 0);
        assert(s.is_root(requested, c.order[p] as int));
    }
    if c.order.len() > 0 {
        assert(c.depth[c.order.len() - 1] == 0);
    }
    assert(c.layered(s, requested, 0)) by {
        reveal(Closure::layered);
    }
}

/// Whether `list` holds only names that are asked for or needed and that
/// the snapshot lacks.
pub open spec fn all_missing(s: Setting, requested: Seq<Seq<char>>, list: Seq<Seq<char>>) -> bool {
    forall|x: int| 0 <= x < list.len() ==> s.is_missing_name(requested, #[trigger] list[x])
}

/// Adds `name`, which is asked for or needed and which the snapshot lacks,
/// to the names `missing`.
fn note(missing: &mut Vec<String>, name: &String, Ghost(s): Ghost<Setting>, Ghost(requested): Ghost<
    Seq<Seq<char>>,
>)
    requires
        all_missing(s, requested, old(missing).deep_view()),
        s.is_missing_name(requested, name@),
    ensures
        all_missing(s, requested, final(missing).deep_view()),
        final(missing).deep_view() == old(missing).deep_view().push(name@),
        forall|other: Seq<char>|
            final(missing).deep_view().contains(other) <==> old(missing).deep_view().contains(
                other,
            ) || other == name@,
{
    let ghost before = missing.deep_view();
    missing.push(name.clone());
    proof {
        assert(missing.deep_view() =~= before.push(name@));
        lemma_push_contains(before, name@);
        assert forall|x: int| 0 <= x < missing.deep_view().len() implies s.is_missing_name(
            requested,
            #[trigger] missing.deep_view()[x],
        ) by {
            if x < before.len() {
                assert(missing.deep_view()[x] == before[x]);
            }
        }
    }
}

/// The records that the requested names stand for, each once, at depth 0.
/// The requested names that stand for no record are added to `missing`.
fn seed(
    index: &Vec<Formula>,
    names: &Vec<Vec<char>>,
    requested: &Vec<String>,
    missing: &mut Vec<String>,
    Ghost(s): Ghost<Setting>,
) -> (c: Closure)
    requires
        s.index == index@,
        names.len() == index.len(),
        forall|i: int| 0 <= i < index.len() ==> (#[trigger] names@[i])@ == index@[i].name@,
        old(missing).len() == 0,
    ensures
        c.partial(s, requested.deep_view(), 0),
        all_missing(s, requested.deep_view(), final(missing).deep_view()),
        forall|i: int|
            0 <= i < requested.len() && lookup(s.index, #[trigger] requested.deep_view()[i])
                is None ==> final(missing).deep_view().contains(requested.deep_view()[i]),
{
    let n = index.len();
    let ghost req = requested.deep_view();
    let mut position: Vec<usize> = Vec::new();
    let mut g: usize = 0;
    while g < n
        invariant
            g <= n,
            position.len() == g,
            forall|h: int| 0 <= h < g ==> position[h] == n,
        decreases n - g,
    {
        position.push(n);
        g = g + 1;
    }
    let mut c = Closure {
        order: Vec::new(),
        depth: Vec::new(),
        position,
        deps: Vec::new(),
        runtime: Vec::new(),
    };
    assert(c.indexed(n as int)) by {
        reveal(Closure::indexed);
    }
    assert(c.all_roots(s, req)) by {
        reveal(Closure::all_roots);
    }
    let mut i: usize = 0;
    while i < requested.len()
        invariant
            i <= requested.len(),
            n == index.len(),
            s.index == index@,
            req == requested.deep_view(),
            names.len() == index.len(),
            forall|h: int| 0 <= h < index.len() ==> (#[trigger] names@[h])@ == index@[h].name@,
            c.indexed(n as int),
            c.position.len() == n,
            c.depth.len() == c.order.len(),
            c.deps.len() == 0,
            c.runtime.len() == 0,
            c.all_roots(s, req),
            all_missing(s, req, missing.deep_view()),
            forall|j: int|
                0 <= j < i && lookup(s.index, #[trigger] req[j]) is Some ==> 0 <= lookup(
                    s.index,
                    req[j],
                )->0 < n && c.position[lookup(s.index, req[j])->0] != n,
            forall|j: int|
                0 <= j < i && lookup(s.index, #[trigger] req[j]) is None
                    ==> missing.deep_view().contains(req[j]),
        decreases requested.len() - i,
    {
        assert(req[i as int] == requested@[i as int]@);
        match find_formula(index, names, requested[i].as_str()) {
            None => {
                let ghost listed = missing.deep_view();
                proof {
                    assert(s.is_missing_name(req, req[i as int]));
                }
                note(missing, &requested[i], Ghost(s), Ghost(req));
                proof {
                    assert forall|j: int|
                        0 <= j < i + 1 && lookup(s.index, #[trigger] req[j])
                            is None implies missing.deep_view().contains(req[j]) by {
                        if j < i {
                            assert(listed.contains(req[j]));
                        }
                    }
                }
            },
            Some(found) => {
                if c.position[found] == n {
                    let ghost before = c;
                    enter(&mut c, found, 0, Ghost(n as int));
                    proof {
                        assert(s.is_root(req, found as int));
                        lemma_roots_kept(before, c, s, req, found as int);
                        assert forall|j: int|
                            0 <= j < i + 1 && lookup(s.index, #[trigger] req[j])
                                is Some implies 0 <= lookup(s.index, req[j])->0 < n
                            && c.position[lookup(s.index, req[j])->0] != n by {
                            if j < i {
                                let h = lookup(s.index, req[j])->0;
                                assert(before.position[h] != n);
                            }
                        }
                    }
                }
            },
        }
        i = i + 1;
    }
    proof {
        assert(c.rooted(s, req)) by {
            reveal(Closure::rooted);
            assert forall|h: int| #[trigger] s.is_root(req, h) implies 0 <= h < s.index.len()
                && c.position[h] != s.index.len() by {
                let j = choose|j: int|
                    0 <= j < req.len() && lookup(s.index, #[trigger] req[j]) == Some(h);
                assert(lookup(s.index, req[j])->0 == h);
            }
        }
        lemma_roots_layered(c, s, req);
        assert(c.all_expanded(s, 0)) by {
            reveal(Closure::all_expanded);
        }
    }
    c
}

/// Resolves what the record at place `k` needs, and adds to the search the
/// records among them that were not reached before. The names among its
/// needs that stand for no record are added to `missing`.
fn expand(
    index: &Vec<Formula>,
    names: &Vec<Vec<char>>,
    platform: &Platform,
    mode: ResolveMode,
    c: &mut Closure,
    k: usize,
    missing: &mut Vec<String>,
    Ghost(s): Ghost<Setting>,
    Ghost(requested): Ghost<Seq<Seq<char>>>,
)
    requires
        s.index == index@,
        s.platform == *platform,
        s.mode == mode,
        names.len() == index.len(),
        forall|i: int| 0 <= i < index.len() ==> (#[trigger] names@[i])@ == index@[i].name@,
        old(c).partial(s, requested, k as int),
        k < old(c).order.len(),
        all_missing(s, requested, old(missing).deep_view()),
    ensures
        final(c).partial(s, requested, k + 1),
        forall|i: int| 0 <= i <= k ==> final(c).order[i] == old(c).order[i],
        all_missing(s, requested, final(missing).deep_view()),
        forall|name: Seq<char>|
            old(missing).deep_view().contains(name) ==> final(missing).deep_view().contains(name),
        forall|j: int|
            0 <= j < s.dep_names(old(c).order[k as int] as int).len() && lookup(
                s.index,
                #[trigger] s.dep_names(old(c).order[k as int] as int)[j],
            ) is None ==> final(missing).deep_view().contains(
                s.dep_names(old(c).order[k as int] as int)[j],
            ),
{
    let n = index.len();
    proof {
        lemma_indexed(*c, n as int);
        lemma_layered_next(*c, s, requested, k as int);
    }
    let u = c.order[k];
    let du = c.depth[k];
    let mut all = runtime_deps(&index[u], platform, mode);
    let runtime = all.len();
    let build = build_deps(&index[u], platform);
    push_names(&mut all, &build);
    assert(all.deep_view() == s.dep_names(u as int));
    assert(runtime == s.runtime_count(u as int));
    let mut ids: Vec<usize> = Vec::new();
    let mut j: usize = 0;
    assert(c.resolved(s, k as int, ids@, 0)) by {
        reveal(Closure::resolved);
    }
    while j < all.len()
        invariant
            j <= all.len(),
            n == index.len(),
            s.index == index@,
            names.len() == index.len(),
            forall|i: int| 0 <= i < index.len() ==> (#[trigger] names@[i])@ == index@[i].name@,
            all.deep_view() == s.dep_names(u as int),
            ids.len() == j,
            c.expanding(s, requested, k as int, ids@),
            c.position.len() == n,
            c.depth.len() == c.order.len(),
            c.order[k as int] == u,
            c.depth[k as int] == du,
            du <= k,
            c.order.len() <= n,
            old(c).order.len() <= c.order.len(),
            forall|i: int| 0 <= i < old(c).order.len() ==> c.order[i] == old(c).order[i],
            k < old(c).order.len(),
            u == old(c).order[k as int],
            s.member_at(requested, u as int, du as nat),
            all_missing(s, requested, missing.deep_view()),
            forall|name: Seq<char>|
                old(missing).deep_view().contains(name) ==> missing.deep_view().contains(name),
            forall|t: int|
                0 <= t < j && lookup(s.index, #[trigger] s.dep_names(u as int)[t]) is None
                    ==> missing.deep_view().contains(s.dep_names(u as int)[t]),
        decreases all.len() - j,
    {
        assert(all.deep_view()[j as int] == all@[j as int]@);
        let ghost listed = missing.deep_view();
        match find_formula(index, names, all[j].as_str()) {
            None => {
                proof {
                    assert(s.member(requested, u as int));
                    assert(s.is_missing_name(requested, s.dep_names(u as int)[j as int]));
                    lemma_resolved_push(*c, s, k as int, ids@, n);
                }
                note(missing, &all[j], Ghost(s), Ghost(requested));
                ids.push(n);
            },
            Some(v) => {
                if c.position[v] == n {
                    let ghost before = *c;
                    enter(c, v, du + 1, Ghost(n as int));
                    proof {
                        assert(s.edge(u as int, v as int));
                        lemma_rooted_kept(before, *c, s, requested, v as int, du + 1);
                        lemma_layered_enter(before, *c, s, requested, k as int, v as int);
                        lemma_all_expanded_kept(before, *c, s, v as int, du + 1, k as int);
                        lemma_resolved_kept(
                            before,
                            *c,
                            s,
                            v as int,
                            du + 1,
                            k as int,
                            ids@,
                            ids.len() as int,
                        );
                        assert forall|i: int| 0 <= i < old(c).order.len() implies c.order[i] == old(
                            c,
                        ).order[i] by {
                            assert(c.order@[i] == before.order@[i]);
                        }
                    }
                } else {
                    proof {
                        lemma_not_below_last(*c, s, requested, k + 1, v as int);
                    }
                }
                proof {
                    lemma_indexed(*c, n as int);
                    lemma_resolved_push(*c, s, k as int, ids@, v);
                }
                ids.push(v);
            },
        }
        proof {
            assert forall|t: int|
                0 <= t < j + 1 && lookup(s.index, #[trigger] s.dep_names(u as int)[t])
                    is None implies missing.deep_view().contains(s.dep_names(u as int)[t]) by {
                if t < j {
                    assert(listed.contains(s.dep_names(u as int)[t]));
                }
            }
        }
        j = j + 1;
    }
    let ghost before = *c;
    c.deps.push(ids);
    c.runtime.push(runtime);
    proof {
        assert(c.indexed(n as int)) by {
            reveal(Closure::indexed);
        }
        assert(c.layered(s, requested, k + 1)) by {
            reveal(Closure::layered);
        }
        assert(c.rooted(s, requested)) by {
            reveal(Closure::rooted);
        }
        assert(c.resolved(s, k as int, ids@, ids.len() as int)) by {
            reveal(Closure::resolved);
        }
        assert(c.expanded(s, k as int));
        assert(c.all_expanded(s, k + 1)) by {
            reveal(Closure::all_expanded);
            assert forall|i: int| 0 <= i < k + 1 implies #[trigger] c.expanded(s, i) by {
                if i < k {
                    assert(before.expanded(s, i));
                    assert(c.deps[i] == before.deps[i]);
                    assert(c.runtime[i] == before.runtime[i]);
                    assert(c.resolved(s, i, c.deps[i]@, c.deps[i].len() as int)) by {
                        reveal(Closure::resolved);
                    }
                }
            }
        }
        if k + 1 < c.order.len() {
            lemma_depths_rise(*c, s, requested, k + 1, k as int, k + 1);
        }
    }
}

impl Closure {
    /// Whether the request reaches the record `v` according to the search.
    pub open spec fn holds(&self, v: int) -> bool {
        0 <= v < self.position.len() && self.position[v] != self.position.len()
    }
}

/// A search that is through holds every record that the request reaches in
/// `d` steps.
pub proof fn lemma_search_complete(
    c: Closure,
    s: Setting,
    requested: Seq<Seq<char>>,
    v: int,
    d: nat,
)
    requires
        c.searched(s, requested),
        s.member_at(requested, v, d),
    ensures
        c.holds(v),
    decreases d,
{
    let n = s.index.len() as int;
    lemma_indexed(c, n);
    if d == 0 {
        reveal(Closure::rooted);
    } else {
        let u = choose|u: int|
            s.member_at(requested, u, (d - 1) as nat) && #[trigger] s.edge(u, v);
        lemma_search_complete(c, s, requested, u, (d - 1) as nat);
        let i = c.position[u] as int;
        let k = choose|k: int|
            0 <= k < s.dep_names(u).len() && lookup(s.index, #[trigger] s.dep_names(u)[k]) == Some(
                v,
            );
        reveal(Closure::all_expanded);
        assert(c.expanded(s, i));
        reveal(Closure::resolved);
        assert(c.deps[i]@[k] == v);
    }
}

/// A search holds only records that the request reaches.
pub proof fn lemma_search_sound(c: Closure, s: Setting, requested: Seq<Seq<char>>, k: int, v: int)
    requires
        c.partial(s, requested, k),
        c.holds(v),
    ensures
        s.member(requested, v),
        c.position[v] < c.order.len(),
        c.order[c.position[v] as int] == v,
{
    lemma_indexed(c, s.index.len() as int);
    reveal(Closure::layered);
    let i = c.position[v] as int;
    assert(s.member_at(requested, c.order[i] as int, c.depth[i] as nat));
}

/// A record of a search that was not requested is needed by a record of
/// the search.
pub proof fn lemma_has_parent(c: Closure, s: Setting, requested: Seq<Seq<char>>, i: int) -> (q:
    int)
    requires
        c.searched(s, requested),
        0 <= i < c.order.len(),
        c.depth[i] > 0,
    ensures
        0 <= q < c.order.len(),
        s.edge(c.order[q] as int, c.order[i] as int),
{
    lemma_indexed(c, s.index.len() as int);
    reveal(Closure::layered);
    choose|j: int|
        0 <= j < c.order.len() && j < i && (#[trigger] c.depth[j]) + 1 == c.depth[i] && s.edge(
            c.order[j] as int,
            c.order[i] as int,
        )
}

/// A complete search resolved as many needs of a record as the record has.
pub proof fn lemma_needs_count(c: Closure, s: Setting, requested: Seq<Seq<char>>, i: int)
    requires
        c.searched(s, requested),
        0 <= i < c.order.len(),
    ensures
        c.deps[i].len() == s.dep_names(c.order[i] as int).len(),
        c.runtime[i] == s.runtime_count(c.order[i] as int),
        c.runtime[i] <= c.deps[i].len(),
{
    reveal(Closure::all_expanded);
    assert(c.expanded(s, i));
}

/// Every need of a record of a complete search is resolved.
pub proof fn lemma_needs_resolved(c: Closure, s: Setting, requested: Seq<Seq<char>>, i: int, k: int)
    requires
        c.complete(s, requested),
        0 <= i < c.order.len(),
        0 <= k < s.dep_names(c.order[i] as int).len(),
    ensures
        c.deps[i].len() == s.dep_names(c.order[i] as int).len(),
        lookup(s.index, s.dep_names(c.order[i] as int)[k]) == Some(c.deps[i]@[k] as int),
        c.holds(c.deps[i]@[k] as int),
        c.depth[c.position[c.deps[i]@[k] as int] as int] <= c.depth[i] + 1,
        c.runtime[i] == s.runtime_count(c.order[i] as int),
{
    lemma_indexed(c, s.index.len() as int);
    lemma_search_sound(c, s, requested, c.order.len() as int, c.order[i] as int);
    assert(lookup(s.index, s.dep_names(c.order[i] as int)[k]) is Some);
    reveal(Closure::all_expanded);
    assert(c.expanded(s, i));
    reveal(Closure::resolved);
}

/// The closure of the request `requested`: every record that it reaches,
/// breadth first, and with it every name that is asked for or needed and
/// that the snapshot lacks.
pub(crate) fn close(
    index: &Vec<Formula>,
    names: &Vec<Vec<char>>,
    requested: &Vec<String>,
    platform: &Platform,
    mode: ResolveMode,
    Ghost(s): Ghost<Setting>,
) -> (res: (Closure, Vec<String>))
    requires
        s.index == index@,
        s.platform == *platform,
        s.mode == mode,
        names.len() == index.len(),
        forall|i: int| 0 <= i < index.len() ==> (#[trigger] names@[i])@ == index@[i].name@,
    ensures
        res.0.searched(s, requested.deep_view()),
        forall|name: Seq<char>|
            res.1.deep_view().contains(name) <==> #[trigger] s.is_missing_name(
                requested.deep_view(),
                name,
            ),
{
    let ghost req = requested.deep_view();
    let n = index.len();
    let mut missing: Vec<String> = Vec::new();
    let mut c = seed(index, names, requested, &mut missing, Ghost(s));
    let mut k: usize = 0;
    proof {
        lemma_indexed(c, n as int);
    }
    while k < c.order.len()
        invariant
            n == index.len(),
            s.index == index@,
            s.platform == *platform,
            s.mode == mode,
            names.len() == index.len(),
            forall|i: int| 0 <= i < index.len() ==> (#[trigger] names@[i])@ == index@[i].name@,
            req == requested.deep_view(),
            c.partial(s, req, k as int),
            c.order.len() <= n,
            all_missing(s, req, missing.deep_view()),
            forall|i: int|
                0 <= i < requested.len() && lookup(s.index, #[trigger] req[i]) is None
                    ==> missing.deep_view().contains(req[i]),
            forall|i: int, j: int|
                0 <= i < k && 0 <= j < s.dep_names(c.order[i] as int).len() && lookup(
                    s.index,
                    #[trigger] s.dep_names(c.order[i] as int)[j],
                ) is None ==> missing.deep_view().contains(s.dep_names(c.order[i] as int)[j]),
        decreases n - k,
    {
        let ghost before = c;
        let ghost listed = missing.deep_view();
        expand(index, names, platform, mode, &mut c, k, &mut missing, Ghost(s), Ghost(req));
        proof {
            lemma_indexed(c, n as int);
            assert forall|i: int|
                0 <= i < requested.len() && lookup(s.index, #[trigger] req[i])
                    is None implies missing.deep_view().contains(req[i]) by {
                assert(listed.contains(req[i]));
            }
            assert forall|i: int, j: int|
                0 <= i < k + 1 && 0 <= j < s.dep_names(c.order[i] as int).len() && lookup(
                    s.index,
                    #[trigger] s.dep_names(c.order[i] as int)[j],
                ) is None implies missing.deep_view().contains(
                s.dep_names(c.order[i] as int)[j],
            ) by {
                assert(c.order[i] == before.order[i]);
                if i < k {
                    assert(listed.contains(s.dep_names(before.order[i] as int)[j]));
                }
            }
        }
        k = k + 1;
    }
    proof {
        assert(c.searched(s, req));
        assert forall|name: Seq<char>|
            missing.deep_view().contains(name) <==> #[trigger] s.is_missing_name(req, name) by {
            if missing.deep_view().contains(name) {
                let x = choose|x: int|
                    0 <= x < missing.deep_view().len() && missing.deep_view()[x] == name;
                assert(s.is_missing_name(req, missing.deep_view()[x]));
            }
            if s.is_missing_name(req, name) {
                if exists|i: int| 0 <= i < req.len() && #[trigger] req[i] == name {
                    let i = choose|i: int| 0 <= i < req.len() && #[trigger] req[i] == name;
                    assert(lookup(s.index, req[i]) is None);
                } else {
                    let (u, j) = choose|u: int, j: int|
                        s.member(req, u) && 0 <= j < s.dep_names(u).len() && #[trigger] s.dep_names(
                            u,
                        )[j] == name;
                    let d = choose|d: nat| s.member_at(req, u, d);
                    lemma_search_complete(c, s, req, u, d);
                    lemma_search_sound(c, s, req, c.order.len() as int, u);
                    let i = c.position[u] as int;
                    assert(c.order[i] == u);
                    assert(lookup(s.index, s.dep_names(c.order[i] as int)[j]) is None);
                }
            }
        }
    }
    (c, missing)
}

} // verus!
