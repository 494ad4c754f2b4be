//! The plan of an installation: the closure of a request, every formula
//! after what it needs, and among those that could come next the one with
//! the least name first.

use vstd::prelude::*;
use crate::errors::Error;
use crate::formula::closure::{
    close, lemma_has_parent, lemma_indexed, lemma_member_step, lemma_needs_count,
    lemma_needs_resolved, lemma_search_complete,
    lemma_search_sound, Closure,
};
use crate::formula::deps::{
    build_deps, builds_from_source, from_source, is_unsupported, push_names, runtime_deps,
    unsupported, ResolveMode, Setting,
};
use crate::formula::names::{
    find_formula, index_names, least_name, lemma_name_lt_irreflexive, lemma_name_lt_total,
    lemma_name_lt_transitive, sort_names, sorted_names,
    lemma_position_found, lookup, name_before, name_lt, normal, position_of,
};
use crate::formula::order::{arrange, is_stuck, lemma_ranked, nameable, orderable, Placement};
use crate::formula::types::{Formula, Platform};
use crate::places::lemma_room_left;

verus! {

/// Why a formula is part of a plan.
#[derive(Debug, PartialEq, Eq)]
pub enum Via {
    /// It was asked for.
    Explicit,
    /// The named formula of the plan needs it at run time.
    RuntimeOf(String),
    /// The named formula of the plan needs it for its build, and no formula
    /// of the plan needs it at run time.
    BuildOf(String),
}

/// One formula of a plan.
#[derive(Debug, PartialEq, Eq)]
pub struct PlannedNode {
    /// The name of the formula.
    pub name: String,
    /// The place of its record in the snapshot.
    pub formula: usize,
    /// The fewest steps that lead from a requested formula to it.
    pub depth: usize,
    /// Why it is part of the plan.
    pub via: Via,
    /// Whether it is built from source.
    pub from_source: bool,
}

/// Against what a request is resolved.
pub open spec fn setting(index: Seq<Formula>, platform: Platform, mode: ResolveMode) -> Setting {
    Setting { index, platform, mode }
}

/// Whether the record `v` stands in `nodes` before the place `t`.
pub open spec fn placed_before(nodes: Seq<PlannedNode>, v: int, t: int) -> bool {
    exists|a: int| 0 <= a < t && a < nodes.len() && (#[trigger] nodes[a]).formula == v
}

/// Whether `nodes` lists the closure of the request: records of the
/// closure only, each of them, and none twice.
pub open spec fn lists_closure(s: Setting, requested: Seq<Seq<char>>, nodes: Seq<PlannedNode>) -> bool {
    &&& forall|t: int|
        0 <= t < nodes.len() ==> (#[trigger] nodes[t]).formula < s.index.len() && s.member(
            requested,
            nodes[t].formula as int,
        )
    &&& forall|v: int| #[trigger] s.member(requested, v) ==> placed_before(nodes, v, nodes.len() as int)
    &&& forall|a: int, b: int|
        0 <= a < b < nodes.len() ==> (#[trigger] nodes[a]).formula != (#[trigger] nodes[b]).formula
}

/// Whether every formula of `nodes` stands after all that it needs.
pub open spec fn respects_needs(s: Setting, nodes: Seq<PlannedNode>) -> bool {
    forall|a: int, b: int|
        0 <= a < nodes.len() && 0 <= b < nodes.len() && s.edge(
            (#[trigger] nodes[b]).formula as int,
            (#[trigger] nodes[a]).formula as int,
        ) ==> a < b
}

/// Whether the record `v` could stand at the place `t` of `nodes`: it
/// belongs to the closure, does not stand before `t`, and all that it needs
/// does.
pub open spec fn could_stand(
    s: Setting,
    requested: Seq<Seq<char>>,
    nodes: Seq<PlannedNode>,
    v: int,
    t: int,
) -> bool {
    &&& s.member(requested, v)
    &&& !placed_before(nodes, v, t)
    &&& forall|w: int| #[trigger] s.edge(v, w) ==> placed_before(nodes, w, t)
}

/// Whether at every place of `nodes` stands, of the records that could
/// stand there, the one with the least name.
pub open spec fn least_name_first(
    s: Setting,
    requested: Seq<Seq<char>>,
    nodes: Seq<PlannedNode>,
) -> bool {
    forall|t: int, v: int|
        0 <= t < nodes.len() && #[trigger] could_stand(s, requested, nodes, v, t) ==> !name_lt(
            s.index[v].name@,
            s.index[nodes[t].formula as int].name@,
        )
}

/// Whether `nodes` lists the records of `c` in the order of `p`.
spec fn mirrors(nodes: Seq<PlannedNode>, c: Closure, p: Placement) -> bool {
    &&& nodes.len() == p.out.len()
    &&& p.out.len() == c.order.len()
    &&& forall|t: int|
        0 <= t < nodes.len() ==> (#[trigger] nodes[t]).formula == c.order[p.out[t] as int]
}

/// A complete search can be ordered.
proof fn lemma_orderable(c: Closure, s: Setting, requested: Seq<Seq<char>>)
    requires
        c.complete(s, requested),
    ensures
        orderable(c),
        c.position.len() == s.index.len(),
{
    lemma_indexed(c, s.index.len() as int);
    assert forall|i: int, j: int|
        0 <= i < c.order.len() && 0 <= j < c.deps[i].len() implies (#[trigger] c.deps[i]@[j])
        < c.position.len() && c.position[c.deps[i]@[j] as int] < c.order.len() by {
        lemma_needs_count(c, s, requested, i);
        lemma_needs_resolved(c, s, requested, i, j);
    }
}

/// What a record of a complete search needs is what the search resolved
/// for it.
proof fn lemma_edge_resolved(c: Closure, s: Setting, requested: Seq<Seq<char>>, i: int, w: int)
    requires
        c.complete(s, requested),
        0 <= i < c.order.len(),
    ensures
        s.edge(c.order[i] as int, w) <==> exists|j: int|
            0 <= j < c.deps[i].len() && (#[trigger] c.deps[i]@[j]) == w,
{
    let u = c.order[i] as int;
    if s.edge(u, w) {
        let k = choose|k: int|
            0 <= k < s.dep_names(u).len() && lookup(s.index, #[trigger] s.dep_names(u)[k]) == Some(
                w,
            );
        lemma_needs_resolved(c, s, requested, i, k);
        assert(c.deps[i]@[k] == w);
    }
    if exists|j: int| 0 <= j < c.deps[i].len() && (#[trigger] c.deps[i]@[j]) == w {
        let j = choose|j: int| 0 <= j < c.deps[i].len() && (#[trigger] c.deps[i]@[j]) == w;
        lemma_needs_count(c, s, requested, i);
        lemma_needs_resolved(c, s, requested, i, j);
        assert(lookup(s.index, s.dep_names(u)[j]) == Some(w));
    }
}

/// Where every record has its place in the order, none is left out.
proof fn lemma_all_placed(p: Placement, m: int, i: int)
    requires
        p.ranked(m),
        p.out.len() == m,
        0 <= i < m,
    ensures
        p.rank[i] != m,
        p.rank[i] < m,
        p.out[p.rank[i] as int] == i,
{
    lemma_ranked(p, m);
    if p.rank[i] == m {
        lemma_room_left(p.out@, p.rank@, m, i);
    }
}

/// The place in the plan of a record that the request reaches.
proof fn lemma_member_placed(
    nodes: Seq<PlannedNode>,
    c: Closure,
    p: Placement,
    s: Setting,
    requested: Seq<Seq<char>>,
    v: int,
) -> (a: int)
    requires
        c.complete(s, requested),
        p.ranked(c.order.len() as int),
        mirrors(nodes, c, p),
        s.member(requested, v),
    ensures
        0 <= a < nodes.len(),
        nodes[a].formula == v,
        c.holds(v),
        a == p.rank[c.position[v] as int],
        p.out[a] == c.position[v],
{
    let m = c.order.len() as int;
    let d = choose|d: nat| s.member_at(requested, v, d);
    lemma_search_complete(c, s, requested, v, d);
    lemma_search_sound(c, s, requested, m, v);
    let i = c.position[v] as int;
    lemma_all_placed(p, m, i);
    p.rank[i] as int
}

/// The record at a place of the plan, seen from the search.
proof fn lemma_node_record(
    nodes: Seq<PlannedNode>,
    c: Closure,
    p: Placement,
    s: Setting,
    requested: Seq<Seq<char>>,
    t: int,
)
    requires
        c.complete(s, requested),
        p.ranked(c.order.len() as int),
        mirrors(nodes, c, p),
        0 <= t < nodes.len(),
    ensures
        p.out[t] < c.order.len(),
        p.rank[p.out[t] as int] == t,
        nodes[t].formula < s.index.len(),
        c.holds(nodes[t].formula as int),
        c.position[nodes[t].formula as int] == p.out[t],
        s.member(requested, nodes[t].formula as int),
{
    let m = c.order.len() as int;
    lemma_ranked(p, m);
    lemma_indexed(c, s.index.len() as int);
    let i = p.out[t] as int;
    assert(c.order[i] < s.index.len() && c.position[c.order[i] as int] == i);
    lemma_search_sound(c, s, requested, m, c.order[i] as int);
}

/// A complete order of a complete search lists the closure.
proof fn lemma_lists_closure(
    nodes: Seq<PlannedNode>,
    c: Closure,
    p: Placement,
    s: Setting,
    requested: Seq<Seq<char>>,
)
    requires
        c.complete(s, requested),
        p.ranked(c.order.len() as int),
        mirrors(nodes, c, p),
    ensures
        lists_closure(s, requested, nodes),
{
    assert forall|t: int| 0 <= t < nodes.len() implies (#[trigger] nodes[t]).formula
        < s.index.len() && s.member(requested, nodes[t].formula as int) by {
        lemma_node_record(nodes, c, p, s, requested, t);
    }
    assert forall|v: int| #[trigger] s.member(requested, v) implies placed_before(
        nodes,
        v,
        nodes.len() as int,
    ) by {
        let a = lemma_member_placed(nodes, c, p, s, requested, v);
        assert(nodes[a].formula == v);
    }
    assert forall|a: int, b: int| 0 <= a < b < nodes.len() implies (#[trigger] nodes[a]).formula != (
    #[trigger] nodes[b]).formula by {
        lemma_node_record(nodes, c, p, s, requested, a);
        lemma_node_record(nodes, c, p, s, requested, b);
    }
}

/// A sound order of a complete search places every record after what it
/// needs.
proof fn lemma_respects_needs(
    nodes: Seq<PlannedNode>,
    c: Closure,
    p: Placement,
    s: Setting,
    requested: Seq<Seq<char>>,
    names: Seq<Vec<char>>,
)
    requires
        c.complete(s, requested),
        p.ranked(c.order.len() as int),
        p.ordered(c, names),
        mirrors(nodes, c, p),
    ensures
        respects_needs(s, nodes),
{
    assert forall|a: int, b: int|
        0 <= a < nodes.len() && 0 <= b < nodes.len() && s.edge(
            (#[trigger] nodes[b]).formula as int,
            (#[trigger] nodes[a]).formula as int,
        ) implies a < b by {
        lemma_node_record(nodes, c, p, s, requested, a);
        lemma_node_record(nodes, c, p, s, requested, b);
        let i = p.out[b] as int;
        let w = nodes[a].formula as int;
        lemma_edge_resolved(c, s, requested, i, w);
        let j = choose|j: int| 0 <= j < c.deps[i].len() && (#[trigger] c.deps[i]@[j]) == w;
        reveal(Placement::ordered);
        assert(p.step_ok(c, names, b));
        assert(p.rank[c.position[c.deps[i]@[j] as int] as int] < b);
    }
}

/// A sound order of a complete search places the least name first.
proof fn lemma_least_name_first(
    nodes: Seq<PlannedNode>,
    c: Closure,
    p: Placement,
    s: Setting,
    requested: Seq<Seq<char>>,
    names: Seq<Vec<char>>,
)
    requires
        c.complete(s, requested),
        p.ranked(c.order.len() as int),
        p.ordered(c, names),
        mirrors(nodes, c, p),
        names.len() == s.index.len(),
        forall|i: int| 0 <= i < s.index.len() ==> (#[trigger] names[i])@ == s.index[i].name@,
    ensures
        least_name_first(s, requested, nodes),
{
    let m = c.order.len() as int;
    assert forall|t: int, v: int|
        0 <= t < nodes.len() && #[trigger] could_stand(s, requested, nodes, v, t) implies !name_lt(
        s.index[v].name@,
        s.index[nodes[t].formula as int].name@,
    ) by {
        lemma_node_record(nodes, c, p, s, requested, t);
        let a = lemma_member_placed(nodes, c, p, s, requested, v);
        let i = c.position[v] as int;
        lemma_search_sound(c, s, requested, m, v);
        assert(p.rank[i] >= t) by {
            if p.rank[i] < t {
                assert(nodes[a].formula == v);
                assert(placed_before(nodes, v, t));
            }
        }
        assert(p.ready(c, i, t)) by {
            assert forall|j: int| 0 <= j < c.deps[i].len() implies p.rank[c.position[(
            #[trigger] c.deps[i]@[j]) as int] as int] < t by {
                let w = c.deps[i]@[j] as int;
                lemma_edge_resolved(c, s, requested, i, w);
                assert(s.edge(v, w));
                assert(placed_before(nodes, w, t));
                let b = choose|b: int|
                    0 <= b < t && b < nodes.len() && (#[trigger] nodes[b]).formula == w;
                lemma_node_record(nodes, c, p, s, requested, b);
            }
        }
        reveal(Placement::ordered);
        assert(p.step_ok(c, names, t));
        assert(names[c.order[i] as int]@ == s.index[v].name@);
        assert(names[c.order[p.out[t] as int] as int]@ == s.index[nodes[t].formula as int].name@);
    }
}

/// The records of the search that the order leaves out.
spec fn left_over(c: Closure, p: Placement) -> Set<int> {
    Set::new(|v: int| c.holds(v) && p.rank[c.position[v] as int] == c.order.len())
}

/// An order that leaves records out leaves some place unfilled.
proof fn lemma_some_left(p: Placement, m: int) -> (i: int)
    requires
        p.ranked(m),
        p.out.len() < m,
    ensures
        0 <= i < m,
        p.rank[i] == m,
{
    lemma_ranked(p, m);
    if forall|i: int| 0 <= i < m ==> p.rank[i] != m {
        let ranks = Seq::new(m as nat, |i: int| p.rank[i] as int);
        assert(ranks.no_duplicates()) by {
            assert forall|i: int, j: int|
                0 <= i < ranks.len() && 0 <= j < ranks.len() && i != j implies ranks[i]
                != ranks[j] by {
                assert(p.rank[i] != m);
                assert(p.rank[j] != m);
                assert(p.out[p.rank[i] as int] == i);
                assert(p.out[p.rank[j] as int] == j);
            }
        }
        ranks.unique_seq_to_set();
        let limit = p.out.len() as int;
        vstd::set_lib::lemma_int_range(0, limit);
        assert(ranks.to_set().subset_of(vstd::set_lib::set_int_range(0, limit))) by {
            assert forall|x: int| ranks.to_set().contains(x) implies vstd::set_lib::set_int_range(
                0,
                limit,
            ).contains(x) by {
                let i = choose|i: int| 0 <= i < ranks.len() && ranks[i] == x;
                assert(p.rank[i] != m);
            }
        }
        vstd::set_lib::lemma_len_subset(ranks.to_set(), vstd::set_lib::set_int_range(0, limit));
        assert(false);
    }
    choose|i: int| 0 <= i < m && p.rank[i] == m
}

/// The record at a place of a search is held by the search at that place.
proof fn lemma_place_held(c: Closure, n: int, i: int)
    requires
        c.indexed(n),
        0 <= i < c.order.len(),
    ensures
        c.holds(c.order[i] as int),
        c.position[c.order[i] as int] == i,
        c.order[i] < n,
        c.depth.len() == c.order.len(),
{
    lemma_indexed(c, n);
}

/// A place is unfilled or filled within the order.
proof fn lemma_rank_value(p: Placement, m: int, i: int)
    requires
        p.ranked(m),
        0 <= i < m,
    ensures
        p.rank[i] == m || p.rank[i] < p.out.len(),
{
    lemma_ranked(p, m);
}

/// Where an order cannot go on, a record that it leaves out needs a record
/// that it leaves out.
proof fn lemma_left_over_needs(
    c: Closure,
    p: Placement,
    s: Setting,
    requested: Seq<Seq<char>>,
    u: int,
) -> (w: int)
    requires
        c.complete(s, requested),
        p.ranked(c.order.len() as int),
        p.out.len() < c.order.len(),
        is_stuck(c, p),
        left_over(c, p).contains(u),
    ensures
        s.member(requested, u),
        left_over(c, p).contains(w),
        s.edge(u, w),
{
    let m = c.order.len() as int;
    lemma_search_sound(c, s, requested, m, u);
    let i = c.position[u] as int;
    assert(!p.ready(c, i, p.out.len() as int)) by {
        reveal(is_stuck);
    }
    let j = choose|j: int|
        0 <= j < c.deps[i].len() && !(p.rank[c.position[(#[trigger] c.deps[i]@[j]) as int] as int]
            < p.out.len());
    let w = c.deps[i]@[j] as int;
    lemma_needs_count(c, s, requested, i);
    lemma_needs_resolved(c, s, requested, i, j);
    lemma_edge_resolved(c, s, requested, i, w);
    lemma_search_sound(c, s, requested, m, w);
    lemma_rank_value(p, m, c.position[w] as int);
    w
}

/// Where an order cannot go on, the records that it leaves out need each
/// other in a circle.
proof fn lemma_stuck_is_knot(c: Closure, p: Placement, s: Setting, requested: Seq<Seq<char>>)
    requires
        c.complete(s, requested),
        p.ranked(c.order.len() as int),
        p.out.len() < c.order.len(),
        is_stuck(c, p),
    ensures
        s.is_knot(requested, left_over(c, p)),
        s.cyclic(requested),
{
    let m = c.order.len() as int;
    let knot = left_over(c, p);
    let i0 = lemma_some_left(p, m);
    lemma_place_held(c, s.index.len() as int, i0);
    assert(knot.contains(c.order[i0] as int));
    assert forall|u: int| #[trigger] knot.contains(u) implies s.member(requested, u)
        && s.needs_one_of(u, knot) by {
        let w = lemma_left_over_needs(c, p, s, requested, u);
        reveal(Setting::needs_one_of);
        assert(knot.contains(w) && s.edge(u, w));
    }
    assert(s.is_knot(requested, knot));
}

/// No record of a knot is ever placed by a sound order.
proof fn lemma_knot_unplaced(
    c: Closure,
    p: Placement,
    s: Setting,
    requested: Seq<Seq<char>>,
    names: Seq<Vec<char>>,
    knot: Set<int>,
    t: int,
)
    requires
        c.complete(s, requested),
        p.ranked(c.order.len() as int),
        p.ordered(c, names),
        s.is_knot(requested, knot),
        0 <= t < p.out.len(),
    ensures
        p.out[t] < c.order.len(),
        !knot.contains(c.order[p.out[t] as int] as int),
    decreases t,
{
    let m = c.order.len() as int;
    lemma_ranked(p, m);
    let i = p.out[t] as int;
    let u = c.order[i] as int;
    if knot.contains(u) {
        assert(s.needs_one_of(u, knot));
        reveal(Setting::needs_one_of);
        let v = choose|v: int| knot.contains(v) && #[trigger] s.edge(u, v);
        lemma_edge_resolved(c, s, requested, i, v);
        let j = choose|j: int| 0 <= j < c.deps[i].len() && (#[trigger] c.deps[i]@[j]) == v;
        assert(p.step_ok(c, names, t)) by {
            reveal(Placement::ordered);
        }
        let at = p.rank[c.position[c.deps[i]@[j] as int] as int] as int;
        assert(at < t);
        lemma_needs_count(c, s, requested, i);
        lemma_needs_resolved(c, s, requested, i, j);
        lemma_search_sound(c, s, requested, m, v);
        assert(p.out[at] == c.position[v]);
        lemma_knot_unplaced(c, p, s, requested, names, knot, at);
    }
}

/// Where a sound order cannot go on, every knot lies within what the order
/// leaves out.
proof fn lemma_left_over_largest(
    c: Closure,
    p: Placement,
    s: Setting,
    requested: Seq<Seq<char>>,
    names: Seq<Vec<char>>,
    knot: Set<int>,
    v: int,
)
    requires
        c.complete(s, requested),
        p.ranked(c.order.len() as int),
        p.ordered(c, names),
        s.is_knot(requested, knot),
        knot.contains(v),
    ensures
        left_over(c, p).contains(v),
{
    let m = c.order.len() as int;
    assert(s.member(requested, v));
    let d = choose|d: nat| s.member_at(requested, v, d);
    lemma_search_complete(c, s, requested, v, d);
    lemma_search_sound(c, s, requested, m, v);
    let i = c.position[v] as int;
    lemma_rank_value(p, m, i);
    if p.rank[i] != m {
        lemma_ranked(p, m);
        lemma_knot_unplaced(c, p, s, requested, names, knot, p.rank[i] as int);
    }
}

/// Where a sound order places every record, no records need each other in
/// a circle.
proof fn lemma_no_knot(
    nodes: Seq<PlannedNode>,
    c: Closure,
    p: Placement,
    s: Setting,
    requested: Seq<Seq<char>>,
    names: Seq<Vec<char>>,
)
    requires
        c.complete(s, requested),
        p.ranked(c.order.len() as int),
        p.ordered(c, names),
        mirrors(nodes, c, p),
    ensures
        !s.cyclic(requested),
{
    if s.cyclic(requested) {
        let knot = choose|knot: Set<int>| s.is_knot(requested, knot);
        let u = choose|u: int| knot.contains(u);
        assert(s.member(requested, u));
        let a = lemma_member_placed(nodes, c, p, s, requested, u);
        lemma_knot_unplaced(c, p, s, requested, names, knot, a);
    }
}

/// The depth that a complete search found for a record is the least number
/// of steps from the request to it.
proof fn lemma_depth_least(c: Closure, s: Setting, requested: Seq<Seq<char>>, v: int, d: nat)
    requires
        c.complete(s, requested),
        s.member_at(requested, v, d),
    ensures
        c.holds(v),
        c.depth[c.position[v] as int] <= d,
    decreases d,
{
    let m = c.order.len() as int;
    lemma_search_complete(c, s, requested, v, d);
    lemma_search_sound(c, s, requested, m, v);
    lemma_indexed(c, s.index.len() as int);
    let i = c.position[v] as int;
    if d == 0 {
        reveal(Closure::layered);
        assert(c.depth[i] == 0);
    } else {
        let u = choose|u: int|
            s.member_at(requested, u, (d - 1) as nat) && #[trigger] s.edge(u, v);
        lemma_depth_least(c, s, requested, u, (d - 1) as nat);
        lemma_search_sound(c, s, requested, m, u);
        let q = c.position[u] as int;
        lemma_edge_resolved(c, s, requested, q, v);
        let j = choose|j: int| 0 <= j < c.deps[q].len() && (#[trigger] c.deps[q]@[j]) == v;
        lemma_needs_count(c, s, requested, q);
        lemma_needs_resolved(c, s, requested, q, j);
    }
}

/// What a complete search says of the depth of the record at place `i`.
proof fn lemma_depth_sound(c: Closure, s: Setting, requested: Seq<Seq<char>>, i: int)
    requires
        c.complete(s, requested),
        0 <= i < c.order.len(),
    ensures
        s.member_at(requested, c.order[i] as int, c.depth[i] as nat),
        c.depth[i] == 0 <==> s.is_root(requested, c.order[i] as int),
{
    lemma_indexed(c, s.index.len() as int);
    reveal(Closure::layered);
}

/// Whether one of the first `limit` needs of the record at place `q` is the
/// record `v`.
spec fn has_need(c: Closure, q: int, v: int, limit: int) -> bool {
    exists|j: int| 0 <= j < limit && j < c.deps[q].len() && (#[trigger] c.deps[q]@[j]) == v
}

/// How many needs of the record at place `q` count: those at run time
/// where `runtime` is set, else all.
spec fn need_limit(c: Closure, q: int, runtime: bool) -> int {
    if runtime {
        c.runtime[q] as int
    } else {
        c.deps[q].len() as int
    }
}

/// Whether the record at place `q` needs the record `v`: at run time where
/// `runtime` is set, else at all.
fn needs_record(c: &Closure, q: usize, v: usize, runtime: bool) -> (b: bool)
    requires
        q < c.order.len(),
        c.deps.len() == c.order.len(),
        c.runtime.len() == c.order.len(),
    ensures
        b == has_need(*c, q as int, v as int, need_limit(*c, q as int, runtime)),
{
    let needs = &c.deps[q];
    let limit = if runtime && c.runtime[q] < needs.len() {
        c.runtime[q]
    } else {
        needs.len()
    };
    let mut j: usize = 0;
    while j < limit
        invariant
            j <= limit <= needs.len(),
            q < c.deps.len(),
            q < c.runtime.len(),
            needs == c.deps[q as int],
            runtime ==> limit <= c.runtime[q as int],
            runtime && limit < c.runtime[q as int] ==> limit == needs.len(),
            !runtime ==> limit == needs.len(),
            forall|x: int| 0 <= x < j ==> (#[trigger] needs@[x]) != v,
        decreases limit - j,
    {
        if needs[j] == v {
            assert(c.deps[q as int]@[j as int] == v);
            return true;
        }
        j = j + 1;
    }
    assert(!has_need(*c, q as int, v as int, need_limit(*c, q as int, runtime))) by {
        if has_need(*c, q as int, v as int, need_limit(*c, q as int, runtime)) {
            let x = choose|x: int|
                0 <= x < need_limit(*c, q as int, runtime) && x < c.deps[q as int].len() && (
                #[trigger] c.deps[q as int]@[x]) == v;
            assert(needs@[x] != v);
        }
    }
    false
}

/// Whether the record at place `best` needs `v` and has the least name of
/// the records that do.
spec fn is_least_parent(
    c: Closure,
    names: Seq<Vec<char>>,
    v: int,
    runtime: bool,
    best: int,
) -> bool {
    &&& 0 <= best < c.order.len()
    &&& has_need(c, best, v, need_limit(c, best, runtime))
    &&& forall|q: int|
        0 <= q < c.order.len() && #[trigger] has_need(c, q, v, need_limit(c, q, runtime))
            ==> !name_lt(names[c.order[q] as int]@, names[c.order[best] as int]@)
}

/// The place of the record with the least name among those that need `v`,
/// or the number of records where none does.
fn least_parent(c: &Closure, names: &Vec<Vec<char>>, v: usize, runtime: bool) -> (best: usize)
    requires
        orderable(*c),
        nameable(*c, names@),
        c.runtime.len() == c.order.len(),
    ensures
        best <= c.order.len(),
        best < c.order.len() ==> is_least_parent(*c, names@, v as int, runtime, best as int),
        best == c.order.len() ==> forall|q: int|
            0 <= q < c.order.len() ==> !#[trigger] has_need(
                *c,
                q,
                v as int,
                need_limit(*c, q, runtime),
            ),
{
    let m = c.order.len();
    let mut best: usize = m;
    let mut q: usize = 0;
    while q < m
        invariant
            q <= m,
            m == c.order.len(),
            orderable(*c),
            nameable(*c, names@),
            c.runtime.len() == m,
            best <= m,
            best < m ==> best < q && has_need(
                *c,
                best as int,
                v as int,
                need_limit(*c, best as int, runtime),
            ),
            best < m ==> forall|x: int|
                0 <= x < q && #[trigger] has_need(*c, x, v as int, need_limit(*c, x, runtime))
                    ==> !name_lt(names@[c.order[x] as int]@, names@[c.order[best as int] as int]@),
            best == m ==> forall|x: int|
                0 <= x < q ==> !#[trigger] has_need(*c, x, v as int, need_limit(*c, x, runtime)),
        decreases m - q,
    {
        if needs_record(c, q, v, runtime) {
            if best == m {
                proof {
                    lemma_name_lt_irreflexive(names@[c.order[q as int] as int]@);
                }
                best = q;
            } else if name_before(&names[c.order[q]], &names[c.order[best]]) {
                proof {
                    let mine = names@[c.order[q as int] as int]@;
                    let old_best = names@[c.order[best as int] as int]@;
                    lemma_name_lt_irreflexive(mine);
                    assert forall|x: int|
                        0 <= x < q + 1 && #[trigger] has_need(
                            *c,
                            x,
                            v as int,
                            need_limit(*c, x, runtime),
                        ) implies !name_lt(names@[c.order[x] as int]@, mine) by {
                        if x < q && name_lt(names@[c.order[x] as int]@, mine) {
                            lemma_name_lt_transitive(names@[c.order[x] as int]@, mine, old_best);
                        }
                    }
                }
                best = q;
            }
        }
        q = q + 1;
    }
    best
}

/// Whether `parent` names the record of the closure with the least name
/// among those that need `f`: at run time where `runtime` is set, else at
/// all.
pub open spec fn least_parent_name(
    s: Setting,
    requested: Seq<Seq<char>>,
    f: int,
    runtime: bool,
    parent: Seq<char>,
) -> bool {
    &&& exists|u: int|
        s.member(requested, u) && #[trigger] needs_kind(s, u, f, runtime) && s.index[u].name@
            == parent
    &&& forall|w: int|
        s.member(requested, w) && #[trigger] needs_kind(s, w, f, runtime) ==> !name_lt(
            s.index[w].name@,
            parent,
        )
}

/// Whether the record `u` needs the record `f`: at run time where `runtime`
/// is set, else at all.
pub open spec fn needs_kind(s: Setting, u: int, f: int, runtime: bool) -> bool {
    if runtime {
        s.runtime_edge(u, f)
    } else {
        s.edge(u, f)
    }
}

/// Whether `via` says why the record `f` is part of the plan: it was asked
/// for; or else a formula of the plan needs it at run time, and `via` names
/// the one with the least name; or else `via` names the formula with the
/// least name among those that need it.
pub open spec fn via_ok(s: Setting, requested: Seq<Seq<char>>, f: int, via: Via) -> bool {
    match via {
        Via::Explicit => s.is_root(requested, f),
        Via::RuntimeOf(parent) => !s.is_root(requested, f) && least_parent_name(
            s,
            requested,
            f,
            true,
            parent@,
        ),
        Via::BuildOf(parent) => {
            &&& !s.is_root(requested, f)
            &&& forall|w: int| s.member(requested, w) ==> !#[trigger] s.runtime_edge(w, f)
            &&& least_parent_name(s, requested, f, false, parent@)
        },
    }
}

/// Whether `node` describes its record: its name, whether it is built from
/// source, the least number of steps from the request to it, and why it is
/// part of the plan.
pub open spec fn describes(s: Setting, requested: Seq<Seq<char>>, node: PlannedNode) -> bool {
    let f = node.formula as int;
    &&& node.name@ == s.index[f].name@
    &&& node.from_source == from_source(s.index[f], s.platform)
    &&& s.member_at(requested, f, node.depth as nat)
    &&& forall|d: nat| #[trigger] s.member_at(requested, f, d) ==> node.depth <= d
    &&& via_ok(s, requested, f, node.via)
}

/// Whether `nodes` is the plan for the request: the closure of the request,
/// every formula after what it needs, the least name first where several
/// could come next, and every formula described.
pub open spec fn is_plan(s: Setting, requested: Seq<Seq<char>>, nodes: Seq<PlannedNode>) -> bool {
    &&& lists_closure(s, requested, nodes)
    &&& respects_needs(s, nodes)
    &&& least_name_first(s, requested, nodes)
    &&& forall|t: int| 0 <= t < nodes.len() ==> describes(s, requested, #[trigger] nodes[t])
}

/// What the search resolved for a record says which records need which.
proof fn lemma_need_kind(
    c: Closure,
    s: Setting,
    requested: Seq<Seq<char>>,
    q: int,
    v: int,
    runtime: bool,
)
    requires
        c.complete(s, requested),
        0 <= q < c.order.len(),
    ensures
        needs_kind(s, c.order[q] as int, v, runtime) <==> has_need(
            c,
            q,
            v,
            need_limit(c, q, runtime),
        ),
{
    let u = c.order[q] as int;
    lemma_needs_count(c, s, requested, q);
    if !runtime {
        lemma_edge_resolved(c, s, requested, q, v);
        if s.edge(u, v) {
            let j = choose|j: int| 0 <= j < c.deps[q].len() && (#[trigger] c.deps[q]@[j]) == v;
            assert(has_need(c, q, v, c.deps[q].len() as int));
        }
        if has_need(c, q, v, c.deps[q].len() as int) {
            let j = choose|j: int|
                0 <= j < c.deps[q].len() && j < c.deps[q].len() && (#[trigger] c.deps[q]@[j]) == v;
            assert(0 <= j < c.deps[q].len() && c.deps[q]@[j] == v);
        }
    } else {
        if s.runtime_edge(u, v) {
            let k = choose|k: int|
                0 <= k < s.runtime_count(u) && lookup(s.index, #[trigger] s.dep_names(u)[k])
                    == Some(v);
            lemma_needs_resolved(c, s, requested, q, k);
            assert(c.deps[q]@[k] == v);
        }
        if has_need(c, q, v, c.runtime[q] as int) {
            let j = choose|j: int|
                0 <= j < c.runtime[q] && j < c.deps[q].len() && (#[trigger] c.deps[q]@[j]) == v;
            lemma_needs_resolved(c, s, requested, q, j);
            assert(lookup(s.index, s.dep_names(u)[j]) == Some(v));
        }
    }
}

/// The parent with the least name that the search found is the parent with
/// the least name in the closure.
proof fn lemma_least_parent(
    c: Closure,
    s: Setting,
    requested: Seq<Seq<char>>,
    names: Seq<Vec<char>>,
    f: int,
    runtime: bool,
    best: int,
)
    requires
        c.complete(s, requested),
        names.len() == s.index.len(),
        forall|i: int| 0 <= i < s.index.len() ==> (#[trigger] names[i])@ == s.index[i].name@,
        is_least_parent(c, names, f, runtime, best),
    ensures
        least_parent_name(s, requested, f, runtime, s.index[c.order[best] as int].name@),
{
    let m = c.order.len() as int;
    let n = s.index.len() as int;
    let u = c.order[best] as int;
    lemma_place_held(c, n, best);
    lemma_search_sound(c, s, requested, m, u);
    lemma_need_kind(c, s, requested, best, f, runtime);
    assert(s.member(requested, u) && needs_kind(s, u, f, runtime));
    assert forall|w: int|
        s.member(requested, w) && #[trigger] needs_kind(s, w, f, runtime) implies !name_lt(
        s.index[w].name@,
        s.index[u].name@,
    ) by {
        let d = choose|d: nat| s.member_at(requested, w, d);
        lemma_search_complete(c, s, requested, w, d);
        lemma_search_sound(c, s, requested, m, w);
        let q = c.position[w] as int;
        lemma_need_kind(c, s, requested, q, f, runtime);
        assert(has_need(c, q, f, need_limit(c, q, runtime)));
        assert(names[c.order[q] as int]@ == s.index[w].name@);
        assert(names[c.order[best] as int]@ == s.index[u].name@);
    }
}

/// Where the search found no parent of a kind, the closure has none.
proof fn lemma_no_parent(
    c: Closure,
    s: Setting,
    requested: Seq<Seq<char>>,
    f: int,
    runtime: bool,
    w: int,
)
    requires
        c.complete(s, requested),
        forall|q: int|
            0 <= q < c.order.len() ==> !#[trigger] has_need(c, q, f, need_limit(c, q, runtime)),
        s.member(requested, w),
    ensures
        !needs_kind(s, w, f, runtime),
{
    let m = c.order.len() as int;
    let d = choose|d: nat| s.member_at(requested, w, d);
    lemma_search_complete(c, s, requested, w, d);
    lemma_search_sound(c, s, requested, m, w);
    let q = c.position[w] as int;
    lemma_need_kind(c, s, requested, q, f, runtime);
    assert(!has_need(c, q, f, need_limit(c, q, runtime)));
}

/// Why the record at place `i` is part of the plan.
fn via_of(
    index: &Vec<Formula>,
    names: &Vec<Vec<char>>,
    c: &Closure,
    i: usize,
    Ghost(s): Ghost<Setting>,
    Ghost(requested): Ghost<Seq<Seq<char>>>,
) -> (via: Via)
    requires
        s.index == index@,
        c.complete(s, requested),
        names.len() == index.len(),
        forall|x: int| 0 <= x < index.len() ==> (#[trigger] names@[x])@ == index@[x].name@,
        i < c.order.len(),
    ensures
        via_ok(s, requested, c.order[i as int] as int, via),
{
    let m = c.order.len();
    proof {
        lemma_orderable(*c, s, requested);
        lemma_depth_sound(*c, s, requested, i as int);
        lemma_indexed(*c, s.index.len() as int);
        assert(c.runtime.len() == m);
    }
    if c.depth[i] == 0 {
        return Via::Explicit;
    }
    let f = c.order[i];
    let at_run_time = least_parent(c, names, f, true);
    if at_run_time < m {
        proof {
            lemma_least_parent(*c, s, requested, names@, f as int, true, at_run_time as int);
        }
        return Via::RuntimeOf(index[c.order[at_run_time]].name.clone());
    }
    let at_all = least_parent(c, names, f, false);
    proof {
        assert forall|w: int| s.member(requested, w) implies !#[trigger] s.runtime_edge(
            w,
            f as int,
        ) by {
            lemma_no_parent(*c, s, requested, f as int, true, w);
        }
        if at_all == m {
            let q = lemma_has_parent(*c, s, requested, i as int);
            lemma_need_kind(*c, s, requested, q, f as int, false);
            assert(has_need(*c, q, f as int, need_limit(*c, q, false)));
            assert(false);
        }
        lemma_least_parent(*c, s, requested, names@, f as int, false, at_all as int);
    }
    if at_all < m {
        Via::BuildOf(index[c.order[at_all]].name.clone())
    } else {
        Via::Explicit
    }
}

/// Whether `names` holds the name of the record `v`.
#[verifier::opaque]
pub open spec fn names_record(s: Setting, names: Seq<Seq<char>>, v: int) -> bool {
    exists|x: int| 0 <= x < names.len() && #[trigger] names[x] == s.index[v].name@
}

/// Whether `name` is the name of a record of `knot`.
#[verifier::opaque]
pub open spec fn names_one_of(s: Setting, knot: Set<int>, name: Seq<char>) -> bool {
    exists|v: int| #[trigger] knot.contains(v) && s.index[v].name@ == name
}

/// Whether `names` are the names of the records of `knot`.
pub open spec fn names_knot(s: Setting, knot: Set<int>, names: Seq<Seq<char>>) -> bool {
    &&& forall|x: int| 0 <= x < names.len() ==> names_one_of(s, knot, #[trigger] names[x])
    &&& forall|v: int| #[trigger] knot.contains(v) ==> names_record(s, names, v)
}

/// Whether `name` is, of the names that are asked for or needed and that
/// the snapshot lacks, the least.
pub open spec fn least_missing(s: Setting, requested: Seq<Seq<char>>, name: Seq<char>) -> bool {
    &&& s.is_missing_name(requested, name)
    &&& forall|other: Seq<char>| #[trigger]
        s.is_missing_name(requested, other) ==> !name_lt(other, name)
}

/// Whether `e` names the least of the names that are asked for or needed
/// and that the snapshot lacks.
pub open spec fn reports_missing(s: Setting, requested: Seq<Seq<char>>, e: Error) -> bool {
    exists|name: Seq<char>| #[trigger] least_missing(s, requested, name) && e.is_not_found(name)
}

/// Where something is missing, a name is missing.
proof fn lemma_some_missing(s: Setting, requested: Seq<Seq<char>>) -> (name: Seq<char>)
    requires
        s.missing(requested),
    ensures
        s.is_missing_name(requested, name),
{
    if exists|i: int| 0 <= i < requested.len() && lookup(s.index, #[trigger] requested[i]) is None {
        let i = choose|i: int|
            0 <= i < requested.len() && lookup(s.index, #[trigger] requested[i]) is None;
        requested[i]
    } else {
        let (u, k) = choose|u: int, k: int|
            s.member(requested, u) && 0 <= k < s.dep_names(u).len() && lookup(
                s.index,
                #[trigger] s.dep_names(u)[k],
            ) is None;
        s.dep_names(u)[k]
    }
}

/// Whether `u` is, of the records of the closure that the platform cannot
/// install, the one with the least name.
pub open spec fn least_unsupported(s: Setting, requested: Seq<Seq<char>>, u: int) -> bool {
    &&& s.member(requested, u)
    &&& unsupported(s.index[u], s.platform)
    &&& forall|w: int| #[trigger]
        s.member(requested, w) && unsupported(s.index[w], s.platform) ==> !name_lt(
            s.index[w].name@,
            s.index[u].name@,
        )
}

/// Whether `e` names the formula with the least name among those of the
/// closure that the platform cannot install, and the platform.
pub open spec fn reports_unsupported(s: Setting, requested: Seq<Seq<char>>, e: Error) -> bool {
    exists|u: int| #[trigger]
        least_unsupported(s, requested, u) && e.is_unsupported(
            s.index[u].name@,
            s.platform.tag.key(),
        )
}

/// Whether `knot` is the largest knot of the closure: a knot, within which
/// every knot lies.
pub open spec fn largest_knot(s: Setting, requested: Seq<Seq<char>>, knot: Set<int>) -> bool {
    &&& s.is_knot(requested, knot)
    &&& forall|other: Set<int>, v: int|
        s.is_knot(requested, other) && #[trigger] other.contains(v) ==> knot.contains(v)
}

/// Whether `e` names the formulas of the largest knot of the closure, each
/// once, in the order of names: the formulas that no order can place.
pub open spec fn reports_cycle(s: Setting, requested: Seq<Seq<char>>, e: Error) -> bool {
    exists|knot: Set<int>, names: Seq<Seq<char>>| #[trigger]
        names_knot(s, knot, names) && largest_knot(s, requested, knot) && e.is_cycle(names)
            && sorted_names(names) && names.no_duplicates()
}

/// A name that is missing makes the request one with something missing.
proof fn lemma_missing_name(s: Setting, requested: Seq<Seq<char>>, name: Seq<char>)
    requires
        s.is_missing_name(requested, name),
    ensures
        s.missing(requested),
{
    if exists|i: int| 0 <= i < requested.len() && #[trigger] requested[i] == name {
        let i = choose|i: int| 0 <= i < requested.len() && #[trigger] requested[i] == name;
        assert(lookup(s.index, requested[i]) is None);
    } else {
        let (u, k) = choose|u: int, k: int|
            s.member(requested, u) && 0 <= k < s.dep_names(u).len() && #[trigger] s.dep_names(
                u,
            )[k] == name;
        assert(lookup(s.index, s.dep_names(u)[k]) is None);
    }
}

/// The place in the search of the record with the least name among those
/// that the platform cannot install, or the number of records where the
/// platform can install all.
fn find_unsupported(
    index: &Vec<Formula>,
    names: &Vec<Vec<char>>,
    platform: &Platform,
    c: &Closure,
    Ghost(s): Ghost<Setting>,
    Ghost(requested): Ghost<Seq<Seq<char>>>,
) -> (best: usize)
    requires
        s.index == index@,
        s.platform == *platform,
        c.complete(s, requested),
        names.len() == index.len(),
        forall|x: int| 0 <= x < index.len() ==> (#[trigger] names@[x])@ == index@[x].name@,
    ensures
        best <= c.order.len(),
        best < c.order.len() ==> c.order[best as int] < index.len() && least_unsupported(
            s,
            requested,
            c.order[best as int] as int,
        ),
        best == c.order.len() ==> !s.blocked(requested),
{
    let m = c.order.len();
    let mut best: usize = m;
    let mut i: usize = 0;
    while i < m
        invariant
            i <= m,
            m == c.order.len(),
            s.index == index@,
            s.platform == *platform,
            c.complete(s, requested),
            names.len() == index.len(),
            forall|x: int| 0 <= x < index.len() ==> (#[trigger] names@[x])@ == index@[x].name@,
            best <= m,
            best < m ==> best < i && c.order[best as int] < index.len() && unsupported(
                index@[c.order[best as int] as int],
                *platform,
            ),
            best < m ==> forall|x: int|
                0 <= x < i && unsupported(index@[(#[trigger] c.order[x]) as int], *platform)
                    ==> !name_lt(
                    index@[c.order[x] as int].name@,
                    index@[c.order[best as int] as int].name@,
                ),
            best == m ==> forall|x: int|
                0 <= x < i ==> !unsupported(index@[(#[trigger] c.order[x]) as int], *platform),
        decreases m - i,
    {
        proof {
            lemma_place_held(*c, index.len() as int, i as int);
            if best < m {
                lemma_place_held(*c, index.len() as int, best as int);
            }
        }
        if is_unsupported(&index[c.order[i]], platform) {
            if best == m {
                proof {
                    lemma_name_lt_irreflexive(index@[c.order[i as int] as int].name@);
                }
                best = i;
            } else if name_before(&names[c.order[i]], &names[c.order[best]]) {
                proof {
                    let mine = index@[c.order[i as int] as int].name@;
                    let old_best = index@[c.order[best as int] as int].name@;
                    lemma_name_lt_irreflexive(mine);
                    assert forall|x: int|
                        0 <= x < i + 1 && unsupported(
                            index@[(#[trigger] c.order[x]) as int],
                            *platform,
                        ) implies !name_lt(index@[c.order[x] as int].name@, mine) by {
                        if x < i && name_lt(index@[c.order[x] as int].name@, mine) {
                            lemma_name_lt_transitive(
                                index@[c.order[x] as int].name@,
                                mine,
                                old_best,
                            );
                        }
                    }
                }
                best = i;
            }
        }
        i = i + 1;
    }
    proof {
        if best < m {
            let u = c.order[best as int] as int;
            lemma_place_held(*c, index.len() as int, best as int);
            lemma_search_sound(*c, s, requested, m as int, u);
            assert forall|w: int| #[trigger]
                s.member(requested, w) && unsupported(s.index[w], s.platform) implies !name_lt(
                s.index[w].name@,
                s.index[u].name@,
            ) by {
                let d = choose|d: nat| s.member_at(requested, w, d);
                lemma_search_complete(*c, s, requested, w, d);
                lemma_search_sound(*c, s, requested, m as int, w);
                let x = c.position[w] as int;
                assert(c.order[x] == w);
            }
        } else if s.blocked(requested) {
            let u = choose|u: int| #[trigger]
                s.member(requested, u) && unsupported(s.index[u], s.platform);
            let d = choose|d: nat| s.member_at(requested, u, d);
            lemma_search_complete(*c, s, requested, u, d);
            lemma_search_sound(*c, s, requested, m as int, u);
            let x = c.position[u] as int;
            assert(!unsupported(index@[c.order[x] as int], *platform));
        }
    }
    best
}

/// The names of the records that the order leaves out, in the order in
/// which the search found them.
fn left_over_names(
    index: &Vec<Formula>,
    c: &Closure,
    p: &Placement,
    Ghost(s): Ghost<Setting>,
    Ghost(requested): Ghost<Seq<Seq<char>>>,
) -> (names: Vec<String>)
    requires
        s.index == index@,
        c.complete(s, requested),
        p.ranked(c.order.len() as int),
    ensures
        names_knot(s, left_over(*c, *p), names.deep_view()),
        names.deep_view().no_duplicates(),
{
    let m = c.order.len();
    let ghost knot = left_over(*c, *p);
    let mut names: Vec<String> = Vec::new();
    let ghost mut places: Seq<int> = Seq::empty();
    let mut i: usize = 0;
    proof {
        lemma_ranked(*p, m as int);
    }
    while i < m
        invariant
            i <= m,
            m == c.order.len(),
            p.rank.len() == m,
            s.index == index@,
            c.complete(s, requested),
            knot == left_over(*c, *p),
            places.len() == names.len(),
            names.deep_view().no_duplicates(),
            forall|x: int|
                0 <= x < names.len() ==> 0 <= (#[trigger] places[x]) < i && names.deep_view()[x]
                    == s.index[c.order[places[x]] as int].name@,
            forall|x: int|
                0 <= x < names.len() ==> names_one_of(s, knot, #[trigger] names.deep_view()[x]),
            forall|y: int|
                0 <= y < i && p.rank[y] == m ==> names_record(
                    s,
                    names.deep_view(),
                    (#[trigger] c.order[y]) as int,
                ),
        decreases m - i,
    {
        proof {
            lemma_place_held(*c, index.len() as int, i as int);
        }
        if p.rank[i] == m {
            let ghost before = names.deep_view();
            let u = c.order[i];
            names.push(index[u].name.clone());
            proof {
                let after = names.deep_view();
                assert(after =~= before.push(index@[u as int].name@));
                assert(knot.contains(u as int));
                assert(!before.contains(index@[u as int].name@)) by {
                    if before.contains(index@[u as int].name@) {
                        let x = choose|x: int|
                            0 <= x < before.len() && before[x] == index@[u as int].name@;
                        let w = c.order[places[x]] as int;
                        lemma_place_held(*c, index.len() as int, places[x]);
                        lemma_search_sound(*c, s, requested, m as int, w);
                        lemma_search_sound(*c, s, requested, m as int, u as int);
                        lemma_name_lt_irreflexive(s.index[w].name@);
                        lemma_members_by_name(s, requested, w, u as int);
                    }
                }
                crate::store::lemma_push_distinct(before, index@[u as int].name@);
                places = places.push(i as int);
                assert(names_one_of(s, knot, after[before.len() as int])) by {
                    reveal(names_one_of);
                }
                assert forall|x: int| 0 <= x < after.len() implies names_one_of(
                    s,
                    knot,
                    #[trigger] after[x],
                ) by {
                    if x < before.len() {
                        assert(after[x] == before[x]);
                    }
                }
                assert forall|y: int| 0 <= y < i + 1 && p.rank[y] == m implies names_record(
                    s,
                    after,
                    (#[trigger] c.order[y]) as int,
                ) by {
                    reveal(names_record);
                    if y < i {
                        assert(names_record(s, before, c.order[y] as int));
                        let x = choose|x: int|
                            0 <= x < before.len() && #[trigger] before[x]
                                == s.index[c.order[y] as int].name@;
                        assert(after[x] == before[x]);
                    } else {
                        assert(after[before.len() as int] == s.index[u as int].name@);
                    }
                }
            }
        }
        i = i + 1;
    }
    proof {
        assert forall|v: int| #[trigger] knot.contains(v) implies names_record(
            s,
            names.deep_view(),
            v,
        ) by {
            lemma_search_sound(*c, s, requested, m as int, v);
            let y = c.position[v] as int;
            assert(c.order[y] == v);
        }
    }
    names
}

/// The plan for installing the `requested` formulas on `platform`: every
/// formula that the request reaches, each after what it needs, and among
/// those that could come next the one with the least name first.
///
/// Of the requested or needed names that `index` lacks, the least is
/// reported first; then,
/// of the formulas that have neither a bottle for the platform nor a
/// source, the one with the least name; then formulas that need each other
/// in a circle.
pub fn resolve_closure(
    index: &Vec<Formula>,
    requested: &Vec<String>,
    mode: ResolveMode,
    platform: &Platform,
) -> (res: Result<Vec<PlannedNode>, Error>)
    ensures
        res is Ok ==> is_plan(
            setting(index@, *platform, mode),
            requested.deep_view(),
            res->Ok_0@,
        ),
        setting(index@, *platform, mode).missing(requested.deep_view()) ==> res is Err
            && reports_missing(
            setting(index@, *platform, mode),
            requested.deep_view(),
            res->Err_0,
        ),
        !setting(index@, *platform, mode).missing(requested.deep_view()) && setting(
            index@,
            *platform,
            mode,
        ).blocked(requested.deep_view()) ==> res is Err && reports_unsupported(
            setting(index@, *platform, mode),
            requested.deep_view(),
            res->Err_0,
        ),
        !setting(index@, *platform, mode).missing(requested.deep_view()) && !setting(
            index@,
            *platform,
            mode,
        ).blocked(requested.deep_view()) && setting(index@, *platform, mode).cyclic(
            requested.deep_view(),
        ) ==> res is Err && reports_cycle(
            setting(index@, *platform, mode),
            requested.deep_view(),
            res->Err_0,
        ),
        !setting(index@, *platform, mode).missing(requested.deep_view()) && !setting(
            index@,
            *platform,
            mode,
        ).blocked(requested.deep_view()) && !setting(index@, *platform, mode).cyclic(
            requested.deep_view(),
        ) ==> res is Ok,
{
    let ghost s = setting(index@, *platform, mode);
    let ghost req = requested.deep_view();
    let names = index_names(index);
    let (c, missing) = close(index, &names, requested, platform, mode, Ghost(s));
    if missing.len() > 0 {
        let at = least_name(&missing);
        let name = missing[at].clone();
        proof {
            let listed = missing.deep_view();
            assert(listed[at as int] == name@);
            assert(listed.contains(name@));
            assert forall|other: Seq<char>| #[trigger]
                s.is_missing_name(req, other) implies !name_lt(other, name@) by {
                assert(listed.contains(other));
                let x = choose|x: int| 0 <= x < listed.len() && listed[x] == other;
                assert(!name_lt(listed[x], listed[at as int]));
            }
            assert(least_missing(s, req, name@));
            lemma_missing_name(s, req, name@);
        }
        return Err(Error::FormulaNotFound { name });
    }
    proof {
        if s.missing(req) {
            let name = lemma_some_missing(s, req);
            assert(missing.deep_view().contains(name));
        }
        assert(c.complete(s, req));
    }
    let m = c.order.len();
    let bad = find_unsupported(index, &names, platform, &c, Ghost(s), Ghost(req));
    if bad < m {
        let name = index[c.order[bad]].name.clone();
        let platform_tag = platform.tag.catalog_key();
        return Err(Error::PlatformUnsupported { name, platform_tag });
    }
    proof {
        lemma_orderable(c, s, req);
    }
    let p = arrange(&c, &names);
    if p.out.len() < m {
        let found = left_over_names(index, &c, &p, Ghost(s), Ghost(req));
        let ghost listed = found.deep_view();
        let stuck = sort_names(found);
        let ghost knot = left_over(c, p);
        proof {
            lemma_stuck_is_knot(c, p, s, req);
            assert forall|other: Set<int>, v: int|
                s.is_knot(req, other) && #[trigger] other.contains(v) implies knot.contains(v) by {
                lemma_left_over_largest(c, p, s, req, names@, other, v);
            }
            assert(names_knot(s, knot, stuck.deep_view())) by {
                assert forall|x: int| 0 <= x < stuck.len() implies names_one_of(
                    s,
                    knot,
                    #[trigger] stuck.deep_view()[x],
                ) by {
                    assert(stuck.deep_view().contains(stuck.deep_view()[x]));
                    let y = choose|y: int|
                        0 <= y < listed.len() && listed[y] == stuck.deep_view()[x];
                    assert(names_one_of(s, knot, listed[y]));
                }
                assert forall|v: int| #[trigger] knot.contains(v) implies names_record(
                    s,
                    stuck.deep_view(),
                    v,
                ) by {
                    assert(names_record(s, listed, v));
                    reveal(names_record);
                    let y = choose|y: int|
                        0 <= y < listed.len() && #[trigger] listed[y] == s.index[v].name@;
                    assert(listed.contains(s.index[v].name@));
                    let x = choose|x: int|
                        0 <= x < stuck.deep_view().len() && stuck.deep_view()[x]
                            == s.index[v].name@;
                    assert(stuck.deep_view()[x] == s.index[v].name@);
                }
            }
        }
        let e = Error::DependencyCycle { names: stuck };
        assert(names_knot(s, knot, stuck.deep_view()) && largest_knot(s, req, knot) && e.is_cycle(
            stuck.deep_view(),
        ) && sorted_names(stuck.deep_view()) && stuck.deep_view().no_duplicates());
        return Err(e);
    }
    proof {
        lemma_ranked(p, m as int);
    }
    let mut nodes: Vec<PlannedNode> = Vec::new();
    let mut t: usize = 0;
    while t < m
        invariant
            t <= m,
            m == c.order.len(),
            p.out.len() == m,
            s == setting(index@, *platform, mode),
            req == requested.deep_view(),
            names.len() == index.len(),
            forall|x: int| 0 <= x < index.len() ==> (#[trigger] names@[x])@ == index@[x].name@,
            c.complete(s, req),
            p.ranked(m as int),
            nodes.len() == t,
            forall|x: int|
                0 <= x < t ==> (#[trigger] nodes@[x]).formula == c.order[p.out[x] as int]
                    && describes(s, req, nodes@[x]),
        decreases m - t,
    {
        proof {
            lemma_ranked(p, m as int);
        }
        let i = p.out[t];
        proof {
            lemma_place_held(c, index.len() as int, i as int);
            lemma_depth_sound(c, s, req, i as int);
        }
        let u = c.order[i];
        let via = via_of(index, &names, &c, i, Ghost(s), Ghost(req));
        let node = PlannedNode {
            name: index[u].name.clone(),
            formula: u,
            depth: c.depth[i],
            via,
            from_source: builds_from_source(&index[u], platform),
        };
        proof {
            assert forall|d: nat| #[trigger] s.member_at(req, u as int, d) implies node.depth
                <= d by {
                lemma_depth_least(c, s, req, u as int, d);
            }
            assert(describes(s, req, node));
        }
        nodes.push(node);
        t = t + 1;
    }
    proof {
        assert(mirrors(nodes@, c, p));
        lemma_lists_closure(nodes@, c, p, s, req);
        lemma_respects_needs(nodes@, c, p, s, req, names@);
        lemma_least_name_first(nodes@, c, p, s, req, names@);
        lemma_no_knot(nodes@, c, p, s, req, names@);
    }
    Ok(nodes)
}

/// Why a formula is part of a plan, as a mathematical value.
pub enum ViaView {
    Explicit,
    RuntimeOf(Seq<char>),
    BuildOf(Seq<char>),
}

impl Via {
    /// The reason as a mathematical value.
    pub open spec fn view(&self) -> ViaView {
        match self {
            Via::Explicit => ViaView::Explicit,
            Via::RuntimeOf(parent) => ViaView::RuntimeOf(parent@),
            Via::BuildOf(parent) => ViaView::BuildOf(parent@),
        }
    }
}

/// A record of the closure is the first of its name in the snapshot.
pub proof fn lemma_member_first(s: Setting, requested: Seq<Seq<char>>, v: int)
    requires
        s.member(requested, v),
    ensures
        0 <= v < s.index.len(),
        position_of(s.index, s.index[v].name@) == v,
{
    let d = choose|d: nat| s.member_at(requested, v, d);
    let name = if d == 0 {
        let i = choose|i: int|
            0 <= i < requested.len() && lookup(s.index, #[trigger] requested[i]) == Some(v);
        requested[i]
    } else {
        let u = choose|u: int|
            s.member_at(requested, u, (d - 1) as nat) && #[trigger] s.edge(u, v);
        let k = choose|k: int|
            0 <= k < s.dep_names(u).len() && lookup(s.index, #[trigger] s.dep_names(u)[k]) == Some(
                v,
            );
        s.dep_names(u)[k]
    };
    assert(lookup(s.index, name) == Some(v));
    lemma_position_found(s.index, normal(name));
}

/// Two records of the closure with the same name are one record.
pub proof fn lemma_members_by_name(s: Setting, requested: Seq<Seq<char>>, v: int, w: int)
    requires
        s.member(requested, v),
        s.member(requested, w),
        !name_lt(s.index[v].name@, s.index[w].name@),
        !name_lt(s.index[w].name@, s.index[v].name@),
    ensures
        v == w,
{
    lemma_name_lt_total(s.index[v].name@, s.index[w].name@);
    lemma_member_first(s, requested, v);
    lemma_member_first(s, requested, w);
}

/// In two plans for one request, the record at a place of the second could
/// stand at that place of the first, where the plans agree before it.
proof fn lemma_could_stand(
    s: Setting,
    requested: Seq<Seq<char>>,
    a: Seq<PlannedNode>,
    b: Seq<PlannedNode>,
    t: int,
)
    requires
        is_plan(s, requested, a),
        is_plan(s, requested, b),
        0 <= t < a.len(),
        t < b.len(),
        forall|x: int| 0 <= x < t ==> (#[trigger] a[x]).formula == b[x].formula,
    ensures
        could_stand(s, requested, a, b[t].formula as int, t),
{
    let v = b[t].formula as int;
    assert(s.member(requested, v));
    if placed_before(a, v, t) {
        let x = choose|x: int| 0 <= x < t && x < a.len() && (#[trigger] a[x]).formula == v;
        assert(b[x].formula == b[t].formula);
    }
    assert forall|w: int| #[trigger] s.edge(v, w) implies placed_before(a, w, t) by {
        let d = choose|d: nat| s.member_at(requested, v, d);
        lemma_member_step(s, requested, v, w, d);
        assert(s.member(requested, w));
        assert(placed_before(b, w, b.len() as int));
        let y = choose|y: int|
            0 <= y < b.len() && y < b.len() && (#[trigger] b[y]).formula == w;
        assert(s.edge(b[t].formula as int, b[y].formula as int));
        assert(y < t);
        assert(a[y].formula == w);
    }
}

/// Two plans for one request agree on the records at their first places.
proof fn lemma_plans_agree(
    s: Setting,
    requested: Seq<Seq<char>>,
    a: Seq<PlannedNode>,
    b: Seq<PlannedNode>,
    t: int,
)
    requires
        is_plan(s, requested, a),
        is_plan(s, requested, b),
        0 <= t <= a.len(),
        t <= b.len(),
    ensures
        forall|x: int| 0 <= x < t ==> (#[trigger] a[x]).formula == b[x].formula,
    decreases t,
{
    if t > 0 {
        lemma_plans_agree(s, requested, a, b, t - 1);
        let last = t - 1;
        assert forall|x: int| 0 <= x < last implies (#[trigger] b[x]).formula == a[x].formula by {
            assert(a[x].formula == b[x].formula);
        }
        lemma_could_stand(s, requested, a, b, last);
        lemma_could_stand(s, requested, b, a, last);
        assert(s.member(requested, a[last].formula as int));
        assert(s.member(requested, b[last].formula as int));
        lemma_members_by_name(s, requested, a[last].formula as int, b[last].formula as int);
    }
}

/// Of two plans for one request, the second is no longer than the first.
proof fn lemma_plans_length(
    s: Setting,
    requested: Seq<Seq<char>>,
    a: Seq<PlannedNode>,
    b: Seq<PlannedNode>,
)
    requires
        is_plan(s, requested, a),
        is_plan(s, requested, b),
    ensures
        b.len() <= a.len(),
{
    if a.len() < b.len() {
        let t = a.len() as int;
        lemma_plans_agree(s, requested, a, b, t);
        let v = b[t].formula as int;
        assert(s.member(requested, v));
        assert(placed_before(a, v, a.len() as int));
        let x = choose|x: int| 0 <= x < a.len() && x < a.len() && (#[trigger] a[x]).formula == v;
        assert(b[x].formula == b[t].formula);
    }
}

/// Two names that are each the least among the parents of a record are one
/// name.
proof fn lemma_parent_unique(
    s: Setting,
    requested: Seq<Seq<char>>,
    f: int,
    runtime: bool,
    x: Seq<char>,
    y: Seq<char>,
)
    requires
        least_parent_name(s, requested, f, runtime, x),
        least_parent_name(s, requested, f, runtime, y),
    ensures
        x == y,
{
    let u = choose|u: int|
        s.member(requested, u) && #[trigger] needs_kind(s, u, f, runtime) && s.index[u].name@ == x;
    let w = choose|w: int|
        s.member(requested, w) && #[trigger] needs_kind(s, w, f, runtime) && s.index[w].name@ == y;
    assert(!name_lt(s.index[u].name@, y));
    assert(!name_lt(s.index[w].name@, x));
    lemma_name_lt_total(x, y);
}

/// Two descriptions of one record say the same.
proof fn lemma_description_unique(
    s: Setting,
    requested: Seq<Seq<char>>,
    a: PlannedNode,
    b: PlannedNode,
)
    requires
        describes(s, requested, a),
        describes(s, requested, b),
        a.formula == b.formula,
    ensures
        a.name@ == b.name@,
        a.depth == b.depth,
        a.from_source == b.from_source,
        a.via@ == b.via@,
{
    let f = a.formula as int;
    assert(s.member_at(requested, f, a.depth as nat));
    assert(s.member_at(requested, f, b.depth as nat));
    match (a.via, b.via) {
        (Via::RuntimeOf(x), Via::RuntimeOf(y)) => {
            lemma_parent_unique(s, requested, f, true, x@, y@);
        },
        (Via::BuildOf(x), Via::BuildOf(y)) => {
            lemma_parent_unique(s, requested, f, false, x@, y@);
        },
        (Via::RuntimeOf(x), Via::BuildOf(y)) => {
            let u = choose|u: int|
                s.member(requested, u) && #[trigger] needs_kind(s, u, f, true) && s.index[u].name@
                    == x@;
            assert(!s.runtime_edge(u, f));
        },
        (Via::BuildOf(x), Via::RuntimeOf(y)) => {
            let u = choose|u: int|
                s.member(requested, u) && #[trigger] needs_kind(s, u, f, true) && s.index[u].name@
                    == y@;
            assert(!s.runtime_edge(u, f));
        },
        _ => {},
    }
}

/// The plan for a request is determined by the snapshot, the platform, the
/// mode and the requested names: two plans for the same of these list the
/// same formulas in the same order and describe each in the same way.
pub proof fn lemma_plan_unique(
    s: Setting,
    requested: Seq<Seq<char>>,
    a: Seq<PlannedNode>,
    b: Seq<PlannedNode>,
)
    requires
        is_plan(s, requested, a),
        is_plan(s, requested, b),
    ensures
        a.len() == b.len(),
        forall|t: int|
            0 <= t < a.len() ==> (#[trigger] a[t]).formula == b[t].formula && a[t].name@
                == b[t].name@ && a[t].depth == b[t].depth && a[t].from_source == b[t].from_source
                && a[t].via@ == b[t].via@,
{
    lemma_plans_length(s, requested, a, b);
    lemma_plans_length(s, requested, b, a);
    lemma_plans_agree(s, requested, a, b, a.len() as int);
    assert forall|t: int| 0 <= t < a.len() implies (#[trigger] a[t]).formula == b[t].formula
        && a[t].name@ == b[t].name@ && a[t].depth == b[t].depth && a[t].from_source
        == b[t].from_source && a[t].via@ == b[t].via@ by {
        assert(describes(s, requested, a[t]));
        assert(describes(s, requested, b[t]));
        lemma_description_unique(s, requested, a[t], b[t]);
    }
}

/// In a plan, whatever a formula needs stands before it.
pub proof fn lemma_plan_topological(
    s: Setting,
    requested: Seq<Seq<char>>,
    nodes: Seq<PlannedNode>,
    u: int,
    v: int,
)
    requires
        is_plan(s, requested, nodes),
        0 <= u < nodes.len(),
        0 <= v < nodes.len(),
        s.edge(nodes[v].formula as int, nodes[u].formula as int),
    ensures
        u < v,
{
}

/// The first place of `nodes` that holds the record `g`, or their number
/// where none does.
pub open spec fn place_of(nodes: Seq<PlannedNode>, g: int) -> int
    decreases nodes.len(),
{
    if nodes.len() == 0 {
        0
    } else if nodes[0].formula == g {
        0
    } else {
        1 + place_of(nodes.skip(1), g)
    }
}

/// `place_of` passes no node of the record and stops on one.
pub proof fn lemma_place_of(nodes: Seq<PlannedNode>, g: int, a: int)
    requires
        0 <= a <= nodes.len(),
        forall|x: int| 0 <= x < a ==> (#[trigger] nodes[x]).formula != g,
        a < nodes.len() ==> nodes[a].formula == g,
    ensures
        place_of(nodes, g) == a,
    decreases a,
{
    if a > 0 {
        let rest = nodes.skip(1);
        assert(nodes[0].formula != g);
        assert forall|x: int| 0 <= x < a - 1 implies (#[trigger] rest[x]).formula != g by {
            assert(rest[x] == nodes[x + 1]);
        }
        lemma_place_of(rest, g, a - 1);
    }
}

/// The first place of `nodes` that holds the record `g`, or their number.
pub fn find_place(nodes: &Vec<PlannedNode>, g: usize) -> (a: usize)
    ensures
        a == place_of(nodes@, g as int),
        a <= nodes.len(),
        a < nodes.len() ==> nodes@[a as int].formula == g,
{
    let mut a: usize = 0;
    while a < nodes.len()
        invariant
            a <= nodes.len(),
            forall|x: int| 0 <= x < a ==> (#[trigger] nodes@[x]).formula != g,
        decreases nodes.len() - a,
    {
        if nodes[a].formula == g {
            proof {
                lemma_place_of(nodes@, g as int, a as int);
            }
            return a;
        }
        a = a + 1;
    }
    proof {
        lemma_place_of(nodes@, g as int, a as int);
    }
    a
}

/// The places of the nodes that the record `u` waits for by the first
/// `upto` of the names that it needs: for each name that stands for a record
/// of `nodes`, the first place of that record, in the order of the names.
pub open spec fn waits(s: Setting, nodes: Seq<PlannedNode>, u: int, upto: int) -> Seq<int>
    decreases upto,
{
    if upto <= 0 {
        Seq::empty()
    } else {
        let head = waits(s, nodes, u, upto - 1);
        match lookup(s.index, s.dep_names(u)[upto - 1]) {
            Some(g) => if place_of(nodes, g) < nodes.len() {
                head.push(place_of(nodes, g))
            } else {
                head
            },
            None => head,
        }
    }
}

/// A node waits for the nodes of the records that its record needs, and
/// for no others.
pub proof fn lemma_waits(s: Setting, nodes: Seq<PlannedNode>, u: int, upto: int)
    requires
        0 <= upto <= s.dep_names(u).len(),
    ensures
        forall|j: int|
            0 <= j < waits(s, nodes, u, upto).len() ==> (#[trigger] waits(s, nodes, u, upto)[j])
                < nodes.len() && 0 <= waits(s, nodes, u, upto)[j] && s.edge(
                u,
                nodes[waits(s, nodes, u, upto)[j]].formula as int,
            ),
        forall|k: int|
            0 <= k < upto && lookup(s.index, #[trigger] s.dep_names(u)[k]) is Some && place_of(
                nodes,
                lookup(s.index, s.dep_names(u)[k])->0,
            ) < nodes.len() ==> waits(s, nodes, u, upto).contains(
                place_of(nodes, lookup(s.index, s.dep_names(u)[k])->0),
            ),
    decreases upto,
{
    if upto > 0 {
        lemma_waits(s, nodes, u, upto - 1);
        let head = waits(s, nodes, u, upto - 1);
        let all = waits(s, nodes, u, upto);
        let found = lookup(s.index, s.dep_names(u)[upto - 1]);
        assert forall|j: int| 0 <= j < all.len() implies (#[trigger] all[j]) < nodes.len() && 0
            <= all[j] && s.edge(u, nodes[all[j]].formula as int) by {
            if j < head.len() {
                assert(all[j] == head[j]);
            } else {
                let g = found->0;
                lemma_place_found(nodes, g);
                assert(lookup(s.index, s.dep_names(u)[upto - 1]) == Some(g));
            }
        }
        assert forall|k: int|
            0 <= k < upto && lookup(s.index, #[trigger] s.dep_names(u)[k]) is Some && place_of(
                nodes,
                lookup(s.index, s.dep_names(u)[k])->0,
            ) < nodes.len() implies all.contains(
            place_of(nodes, lookup(s.index, s.dep_names(u)[k])->0),
        ) by {
            let at = place_of(nodes, lookup(s.index, s.dep_names(u)[k])->0);
            if k < upto - 1 {
                assert(head.contains(at));
                let j = choose|j: int| 0 <= j < head.len() && head[j] == at;
                assert(all[j] == at);
            } else {
                assert(all[all.len() - 1] == at);
            }
        }
    }
}

/// `place_of` lies within `nodes`, or at their end, and holds the record
/// where it lies within.
pub proof fn lemma_place_found(nodes: Seq<PlannedNode>, g: int)
    ensures
        0 <= place_of(nodes, g) <= nodes.len(),
        place_of(nodes, g) < nodes.len() ==> nodes[place_of(nodes, g)].formula == g,
    decreases nodes.len(),
{
    if nodes.len() > 0 && nodes[0].formula != g {
        lemma_place_found(nodes.skip(1), g);
    }
}

/// The places `places` as numbers.
pub open spec fn as_places(places: Seq<usize>) -> Seq<int> {
    Seq::new(places.len(), |j: int| places[j] as int)
}

/// For every node of `nodes` the places of the nodes that it waits for.
/// A node whose record is none of `index` waits for nothing.
pub fn plan_needs(
    index: &Vec<Formula>,
    nodes: &Vec<PlannedNode>,
    mode: ResolveMode,
    platform: &Platform,
) -> (needs: Vec<Vec<usize>>)
    ensures
        needs.len() == nodes.len(),
        forall|b: int|
            0 <= b < nodes.len() && nodes@[b].formula < index.len() ==> as_places(
                (#[trigger] needs@[b])@,
            ) == waits(
                setting(index@, *platform, mode),
                nodes@,
                nodes@[b].formula as int,
                setting(index@, *platform, mode).dep_names(nodes@[b].formula as int).len() as int,
            ),
        forall|b: int|
            0 <= b < nodes.len() && nodes@[b].formula >= index.len() ==> (#[trigger] needs@[b]).len()
                == 0,
        forall|b: int, j: int|
            0 <= b < nodes.len() && 0 <= j < needs@[b].len() ==> (#[trigger] needs@[b]@[j])
                < nodes.len(),
{
    let ghost s = setting(index@, *platform, mode);
    let names = index_names(index);
    let mut needs: Vec<Vec<usize>> = Vec::new();
    let mut b: usize = 0;
    while b < nodes.len()
        invariant
            b <= nodes.len(),
            needs.len() == b,
            s == setting(index@, *platform, mode),
            names.len() == index.len(),
            forall|x: int| 0 <= x < index.len() ==> (#[trigger] names@[x])@ == index@[x].name@,
            forall|y: int|
                0 <= y < b && nodes@[y].formula < index.len() ==> as_places(
                    (#[trigger] needs@[y])@,
                ) == waits(
                    s,
                    nodes@,
                    nodes@[y].formula as int,
                    s.dep_names(nodes@[y].formula as int).len() as int,
                ),
            forall|y: int|
                0 <= y < b && nodes@[y].formula >= index.len() ==> (#[trigger] needs@[y]).len()
                    == 0,
            forall|y: int, j: int|
                0 <= y < b && 0 <= j < needs@[y].len() ==> (#[trigger] needs@[y]@[j])
                    < nodes.len(),
        decreases nodes.len() - b,
    {
        let u = nodes[b].formula;
        let mut mine: Vec<usize> = Vec::new();
        assert(as_places(mine@) =~= Seq::<int>::empty());
        if u < index.len() {
            let mut all = runtime_deps(&index[u], platform, mode);
            let build = build_deps(&index[u], platform);
            push_names(&mut all, &build);
            assert(all.deep_view() == s.dep_names(u as int));
            let mut k: usize = 0;
            while k < all.len()
                invariant
                    k <= all.len(),
                    u < index.len(),
                    s == setting(index@, *platform, mode),
                    names.len() == index.len(),
                    forall|x: int|
                        0 <= x < index.len() ==> (#[trigger] names@[x])@ == index@[x].name@,
                    all.deep_view() == s.dep_names(u as int),
                    as_places(mine@) == waits(s, nodes@, u as int, k as int),
                    forall|j: int| 0 <= j < mine.len() ==> (#[trigger] mine@[j]) < nodes.len(),
                decreases all.len() - k,
            {
                assert(all.deep_view()[k as int] == all@[k as int]@);
                match find_formula(index, &names, all[k].as_str()) {
                    Some(g) => {
                        let a = find_place(nodes, g);
                        if a < nodes.len() {
                            let ghost have = as_places(mine@);
                            mine.push(a);
                            assert(as_places(mine@) =~= have.push(a as int));
                        }
                    },
                    None => {},
                }
                k = k + 1;
            }
        }
        needs.push(mine);
        b = b + 1;
    }
    needs
}

} // verus!
