//! The order of installation: every record after what it needs, and among
//! those that could come next the one with the least name first.

use vstd::prelude::*;
use crate::formula::closure::Closure;
use crate::formula::names::{lemma_name_lt_transitive, name_before, name_lt};

verus! {

/// An order of the records of a search, in the making: `out` lists the
/// places of the records that were placed, and `rank` says for each place
/// where in `out` it stands, or the number of records where it does not yet.
pub struct Placement {
    pub out: Vec<usize>,
    pub rank: Vec<usize>,
}

impl Placement {
    /// Whether `out` and `rank` describe the same order.
    #[verifier::opaque]
    pub open spec fn ranked(&self, m: int) -> bool {
        &&& self.rank.len() == m
        &&& self.out.len() <= m
        &&& forall|t: int|
            0 <= t < self.out.len() ==> (#[trigger] self.out[t]) < m && self.rank[self.out[t] as int]
                == t
        &&& forall|i: int|
            0 <= i < m && (#[trigger] self.rank[i]) != m ==> self.rank[i] < self.out.len()
                && self.out[self.rank[i] as int] == i
    }

    /// Whether all that the record at place `i` needs stands before `t`.
    pub open spec fn ready(&self, c: Closure, i: int, t: int) -> bool {
        forall|j: int|
            0 <= j < c.deps[i].len() ==> self.rank[c.position[(#[trigger] c.deps[i]@[j]) as int] as int]
                < t
    }

    /// Whether the record that stands at `t` could stand there: all that it
    /// needs stands before it, and no record that could stand there as well
    /// has a name before its name.
    pub open spec fn step_ok(&self, c: Closure, names: Seq<Vec<char>>, t: int) -> bool {
        &&& self.ready(c, self.out[t] as int, t)
        &&& forall|i: int|
            0 <= i < c.order.len() && (#[trigger] self.rank[i]) >= t && self.ready(c, i, t)
                ==> !name_lt(names[c.order[i] as int]@, names[c.order[self.out[t] as int] as int]@)
    }

    /// Whether every record that was placed could stand where it stands.
    #[verifier::opaque]
    pub open spec fn ordered(&self, c: Closure, names: Seq<Vec<char>>) -> bool {
        forall|t: int| 0 <= t < self.out.len() ==> #[trigger] self.step_ok(c, names, t)
    }
}

/// Whether the places of `c` are sound enough to be ordered: every need of
/// every record is a record of the search.
pub open spec fn orderable(c: Closure) -> bool {
    &&& c.deps.len() == c.order.len()
    &&& forall|i: int, j: int|
        0 <= i < c.order.len() && 0 <= j < c.deps[i].len() ==> (#[trigger] c.deps[i]@[j])
            < c.position.len() && c.position[c.deps[i]@[j] as int] < c.order.len()
    &&& forall|i: int| 0 <= i < c.order.len() ==> (#[trigger] c.order[i]) < c.position.len()
}

/// What holds of the ranks of a placement.
pub proof fn lemma_ranked(p: Placement, m: int)
    requires
        p.ranked(m),
    ensures
        p.rank.len() == m,
        p.out.len() <= m,
        forall|t: int|
            0 <= t < p.out.len() ==> (#[trigger] p.out[t]) < m && p.rank[p.out[t] as int] == t,
        forall|i: int|
            0 <= i < m && (#[trigger] p.rank[i]) != m ==> p.rank[i] < p.out.len()
                && p.out[p.rank[i] as int] == i,
{
    reveal(Placement::ranked);
}

/// Whether all that the record at place `i` needs was placed.
fn is_ready(c: &Closure, p: &Placement, i: usize) -> (b: bool)
    requires
        orderable(*c),
        p.ranked(c.order.len() as int),
        i < c.order.len(),
    ensures
        b == p.ready(*c, i as int, p.out.len() as int),
{
    let m = c.order.len();
    let needs = &c.deps[i];
    let mut j: usize = 0;
    proof {
        lemma_ranked(*p, m as int);
    }
    while j < needs.len()
        invariant
            j <= needs.len(),
            needs == c.deps[i as int],
            orderable(*c),
            m == c.order.len(),
            p.rank.len() == m,
            p.out.len() <= m,
            i < m,
            forall|x: int| 0 <= x < m && (#[trigger] p.rank[x]) != m ==> p.rank[x] < p.out.len(),
            forall|x: int|
                0 <= x < j ==> p.rank[c.position[(#[trigger] needs@[x]) as int] as int] < p.out.len(),
        decreases needs.len() - j,
    {
        let v = needs[j];
        assert(c.deps[i as int]@[j as int] == v);
        let place = c.position[v];
        if p.rank[place] == m {
            return false;
        }
        j = j + 1;
    }
    true
}

/// Whether `names` can name the records of `c`.
pub open spec fn nameable(c: Closure, names: Seq<Vec<char>>) -> bool {
    names.len() == c.position.len()
}

/// Whether `b` is a place that can be filled next: its record was not
/// placed, all that it needs was, and no such record has a name before its
/// name.
pub open spec fn is_next(c: Closure, names: Seq<Vec<char>>, p: Placement, b: int) -> bool {
    let m = c.order.len();
    let t = p.out.len() as int;
    &&& 0 <= b < m
    &&& p.rank[b] == m
    &&& p.ready(c, b, t)
    &&& forall|i: int|
        0 <= i < m && (#[trigger] p.rank[i]) == m && p.ready(c, i, t) ==> !name_lt(
            names[c.order[i] as int]@,
            names[c.order[b] as int]@,
        )
}

/// Whether no record can be placed next, though some are left.
#[verifier::opaque]
pub open spec fn is_stuck(c: Closure, p: Placement) -> bool {
    forall|i: int|
        0 <= i < c.order.len() && (#[trigger] p.rank[i]) == c.order.len() ==> !p.ready(
            c,
            i,
            p.out.len() as int,
        )
}

/// The place that is filled next, or the number of records where none can be.
fn next_place(c: &Closure, names: &Vec<Vec<char>>, p: &Placement) -> (best: usize)
    requires
        orderable(*c),
        nameable(*c, names@),
        p.ranked(c.order.len() as int),
    ensures
        best <= c.order.len(),
        best < c.order.len() ==> is_next(*c, names@, *p, best as int),
        best == c.order.len() ==> is_stuck(*c, *p),
{
    let m = c.order.len();
    let ghost t = p.out.len() as int;
    let mut best: usize = m;
    let mut i: usize = 0;
    proof {
        lemma_ranked(*p, m as int);
    }
    while i < m
        invariant
            i <= m,
            m == c.order.len(),
            t == p.out.len(),
            orderable(*c),
            nameable(*c, names@),
            p.ranked(m as int),
            p.rank.len() == m,
            best <= m,
            best < m ==> best < i && p.rank[best as int] == m && p.ready(*c, best as int, t),
            best < m ==> forall|x: int|
                0 <= x < i && (#[trigger] p.rank[x]) == m && p.ready(*c, x, t) ==> !name_lt(
                    names@[c.order[x] as int]@,
                    names@[c.order[best as int] as int]@,
                ),
            best == m ==> forall|x: int|
                0 <= x < i && (#[trigger] p.rank[x]) == m ==> !p.ready(*c, x, t),
        decreases m - i,
    {
        if p.rank[i] == m && is_ready(c, p, i) {
            if best == m {
                best = i;
                proof {
                    crate::formula::names::lemma_name_lt_irreflexive(
                        names@[c.order[i as int] as int]@,
                    );
                }
            } else if name_before(&names[c.order[i]], &names[c.order[best]]) {
                proof {
                    let mine = names@[c.order[i as int] as int]@;
                    let old_best = names@[c.order[best as int] as int]@;
                    crate::formula::names::lemma_name_lt_irreflexive(mine);
                    assert forall|x: int|
                        0 <= x < i + 1 && (#[trigger] p.rank[x]) == m && p.ready(
                            *c,
                            x,
                            t,
                        ) implies !name_lt(names@[c.order[x] as int]@, mine) by {
                        if x < i {
                            if name_lt(names@[c.order[x] as int]@, mine) {
                                lemma_name_lt_transitive(
                                    names@[c.order[x] as int]@,
                                    mine,
                                    old_best,
                                );
                            }
                        }
                    }
                }
                best = i;
            }
        }
        i = i + 1;
    }
    proof {
        reveal(is_stuck);
    }
    best
}

/// Placing a record that can be placed next keeps the order sound.
proof fn lemma_place(
    before: Placement,
    after: Placement,
    c: Closure,
    names: Seq<Vec<char>>,
    b: int,
)
    requires
        orderable(c),
        before.ranked(c.order.len() as int),
        before.ordered(c, names),
        before.out.len() < c.order.len(),
        is_next(c, names, before, b),
        after.out@ == before.out@.push(b as usize),
        after.rank@ == before.rank@.update(b, before.out.len()),
    ensures
        after.ranked(c.order.len() as int),
        after.ordered(c, names),
{
    let m = c.order.len() as int;
    let t = before.out.len() as int;
    lemma_ranked(before, m);
    assert(after.ranked(m)) by {
        reveal(Placement::ranked);
        assert forall|x: int| 0 <= x < after.out.len() implies (#[trigger] after.out[x]) < m
            && after.rank[after.out[x] as int] == x by {
            if x < t {
                assert(before.out[x] < m && before.rank[before.out[x] as int] == x);
            }
        }
        assert forall|i: int| 0 <= i < m && (#[trigger] after.rank[i]) != m implies after.rank[i]
            < after.out.len() && after.out[after.rank[i] as int] == i by {
            if i != b {
                assert(before.rank[i] != m);
            }
        }
    }
    assert(after.ordered(c, names)) by {
        reveal(Placement::ordered);
        assert forall|x: int| 0 <= x < after.out.len() implies #[trigger] after.step_ok(
            c,
            names,
            x,
        ) by {
            if x < t {
                assert(before.step_ok(c, names, x));
                assert(after.out[x] == before.out[x]);
                let placed = before.out[x] as int;
                assert(after.ready(c, placed, x)) by {
                    assert forall|j: int| 0 <= j < c.deps[placed].len() implies after.rank[c.position[(
                    #[trigger] c.deps[placed]@[j]) as int] as int] < x by {
                        let need = c.position[c.deps[placed]@[j] as int] as int;
                        assert(before.rank[need] < x);
                    }
                }
                assert forall|i: int|
                    0 <= i < m && (#[trigger] after.rank[i]) >= x && after.ready(
                        c,
                        i,
                        x,
                    ) implies !name_lt(
                    names[c.order[i] as int]@,
                    names[c.order[after.out[x] as int] as int]@,
                ) by {
                    assert(before.rank[i] >= x);
                    assert(before.ready(c, i, x)) by {
                        assert forall|j: int| 0 <= j < c.deps[i].len() implies before.rank[c.position[(
                        #[trigger] c.deps[i]@[j]) as int] as int] < x by {
                            let need = c.position[c.deps[i]@[j] as int] as int;
                            assert(after.rank[need] < x);
                        }
                    }
                }
            } else {
                assert(after.out[x] == b);
                assert(after.ready(c, b, t)) by {
                    assert forall|j: int| 0 <= j < c.deps[b].len() implies after.rank[c.position[(
                    #[trigger] c.deps[b]@[j]) as int] as int] < t by {
                        let need = c.position[c.deps[b]@[j] as int] as int;
                        assert(before.rank[need] < t);
                    }
                }
                assert forall|i: int|
                    0 <= i < m && (#[trigger] after.rank[i]) >= t && after.ready(
                        c,
                        i,
                        t,
                    ) implies !name_lt(names[c.order[i] as int]@, names[c.order[b] as int]@) by {
                    if i == b {
                        crate::formula::names::lemma_name_lt_irreflexive(
                            names[c.order[b] as int]@,
                        );
                    } else {
                        assert(before.rank[i] == m);
                        assert(before.ready(c, i, t)) by {
                            assert forall|j: int|
                                0 <= j < c.deps[i].len() implies before.rank[c.position[(
                            #[trigger] c.deps[i]@[j]) as int] as int] < t by {
                                let need = c.position[c.deps[i]@[j] as int] as int;
                                assert(after.rank[need] < t);
                            }
                        }
                    }
                }
            }
        }
    }
}

/// Places the records of `c` one by one: always the record with the least
/// name among those whose needs were all placed. Where no record can be
/// placed though some are left, the placement ends early.
pub(crate) fn arrange(c: &Closure, names: &Vec<Vec<char>>) -> (p: Placement)
    requires
        orderable(*c),
        nameable(*c, names@),
    ensures
        p.ranked(c.order.len() as int),
        p.ordered(*c, names@),
        p.out.len() < c.order.len() ==> is_stuck(*c, p),
{
    let m = c.order.len();
    let mut rank: Vec<usize> = Vec::new();
    let mut i: usize = 0;
    while i < m
        invariant
            i <= m,
            rank.len() == i,
            forall|x: int| 0 <= x < i ==> rank[x] == m,
        decreases m - i,
    {
        rank.push(m);
        i = i + 1;
    }
    let mut p = Placement { out: Vec::new(), rank };
    proof {
        reveal(Placement::ranked);
        reveal(Placement::ordered);
    }
    while p.out.len() < m
        invariant
            m == c.order.len(),
            orderable(*c),
            nameable(*c, names@),
            p.ranked(m as int),
            p.ordered(*c, names@),
        decreases m - p.out.len(),
    {
        let best = next_place(c, names, &p);
        if best == m {
            return p;
        }
        let ghost before = p;
        let t = p.out.len();
        proof {
            lemma_ranked(p, m as int);
        }
        p.rank.set(best, t);
        p.out.push(best);
        proof {
            lemma_place(before, p, *c, names@, best as int);
            lemma_ranked(p, m as int);
        }
    }
    p
}

} // verus!
