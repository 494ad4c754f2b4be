//! Formula names: their normal form, their order, and their place in an
//! index snapshot.

use vstd::prelude::*;
use crate::errors::Error;
use crate::formula::types::Formula;
use crate::store::{lemma_push_contains, lemma_push_distinct, lemma_remove_distinct};
use crate::text::{ascii_lower, chars_of, same_chars, to_ascii_lower};

verus! {

/// The normal form of a name: ASCII letters in lower case.
pub open spec fn normal(name: Seq<char>) -> Seq<char> {
    Seq::new(name.len(), |i: int| ascii_lower(name[i]))
}

/// Whether `a` comes before `b` in the order of names: character by
/// character, by code point, a proper prefix first.
pub open spec fn name_lt(a: Seq<char>, b: Seq<char>) -> bool
    decreases a.len(),
{
    if b.len() == 0 {
        false
    } else if a.len() == 0 {
        true
    } else if a[0] != b[0] {
        a[0] < b[0]
    } else {
        name_lt(a.skip(1), b.skip(1))
    }
}

/// No name comes before itself.
pub proof fn lemma_name_lt_irreflexive(a: Seq<char>)
    ensures
        !name_lt(a, a),
    decreases a.len(),
{
    if a.len() > 0 {
        lemma_name_lt_irreflexive(a.skip(1));
    }
}

/// Of two different names one comes before the other.
pub proof fn lemma_name_lt_total(a: Seq<char>, b: Seq<char>)
    ensures
        a == b || name_lt(a, b) || name_lt(b, a),
    decreases a.len(),
{
    if a.len() == 0 || b.len() == 0 {
        if a.len() == 0 && b.len() == 0 {
            assert(a =~= b);
        }
    } else if a[0] == b[0] {
        lemma_name_lt_total(a.skip(1), b.skip(1));
        if a.skip(1) == b.skip(1) {
            assert(a =~= seq![a[0]] + a.skip(1));
            assert(b =~= seq![b[0]] + b.skip(1));
        }
    }
}

/// The order of names is transitive.
pub proof fn lemma_name_lt_transitive(a: Seq<char>, b: Seq<char>, c: Seq<char>)
    requires
        name_lt(a, b),
        name_lt(b, c),
    ensures
        name_lt(a, c),
    decreases a.len(),
{
    if a.len() > 0 && a[0] == b[0] && b[0] == c[0] {
        lemma_name_lt_transitive(a.skip(1), b.skip(1), c.skip(1));
    }
}

/// Whether `a` comes before `b` in the order of names.
pub fn name_before(a: &Vec<char>, b: &Vec<char>) -> (lt: bool)
    ensures
        lt == name_lt(a@, b@),
{
    let mut i: usize = 0;
    assert(a@.skip(0) =~= a@);
    assert(b@.skip(0) =~= b@);
    while i < a.len() && i < b.len() && a[i] == b[i]
        invariant
            i <= a.len(),
            i <= b.len(),
            name_lt(a@, b@) == name_lt(a@.skip(i as int), b@.skip(i as int)),
        decreases a.len() - i,
    {
        proof {
            let x = a@.skip(i as int);
            let y = b@.skip(i as int);
            assert(x[0] == y[0]);
            assert(x.skip(1) =~= a@.skip(i + 1));
            assert(y.skip(1) =~= b@.skip(i + 1));
        }
        i = i + 1;
    }
    proof {
        let x = a@.skip(i as int);
        let y = b@.skip(i as int);
        if i < a.len() && i < b.len() {
            assert(x[0] == a@[i as int]);
            assert(y[0] == b@[i as int]);
        }
    }
    if i >= b.len() {
        false
    } else if i >= a.len() {
        true
    } else {
        a[i] < b[i]
    }
}

/// The normal form of `name`.
pub fn normalize(name: &str) -> (out: Vec<char>)
    ensures
        out@ == normal(name@),
{
    let chars = chars_of(name);
    let mut out: Vec<char> = Vec::new();
    let mut i: usize = 0;
    while i < chars.len()
        invariant
            i <= chars.len(),
            chars@ == name@,
            out@ == normal(name@).take(i as int),
        decreases chars.len() - i,
    {
        out.push(to_ascii_lower(chars[i]));
        assert(out@ =~= normal(name@).take(i + 1));
        i = i + 1;
    }
    assert(normal(name@).take(i as int) =~= normal(name@));
    out
}

/// Where the snapshot lists the name `name` first, or the snapshot's length
/// where it does not.
pub open spec fn position_of(index: Seq<Formula>, name: Seq<char>) -> int
    decreases index.len(),
{
    if index.len() == 0 {
        0
    } else if index[0].name@ == name {
        0
    } else {
        1 + position_of(index.skip(1), name)
    }
}

/// The record that the snapshot holds for `name`, looked up in normal form.
pub open spec fn lookup(index: Seq<Formula>, name: Seq<char>) -> Option<int> {
    let i = position_of(index, normal(name));
    if i < index.len() {
        Some(i)
    } else {
        None
    }
}

/// `position_of` passes no record of the name and stops on one.
pub proof fn lemma_position_of(index: Seq<Formula>, name: Seq<char>, i: int)
    requires
        0 <= i <= index.len(),
        forall|j: int| 0 <= j < i ==> (#[trigger] index[j]).name@ != name,
        i < index.len() ==> index[i].name@ == name,
    ensures
        position_of(index, name) == i,
    decreases i,
{
    if i > 0 {
        let rest = index.skip(1);
        assert(index[0].name@ != name);
        assert forall|j: int| 0 <= j < i - 1 implies (#[trigger] rest[j]).name@ != name by {
            assert(rest[j] == index[j + 1]);
        }
        lemma_position_of(rest, name, i - 1);
    }
}

/// What `position_of` returns lies within the snapshot, names the record
/// there, and no record before it.
pub proof fn lemma_position_found(index: Seq<Formula>, name: Seq<char>)
    ensures
        0 <= position_of(index, name) <= index.len(),
        position_of(index, name) < index.len() ==> index[position_of(index, name)].name@ == name,
        forall|j: int| 0 <= j < position_of(index, name) ==> (#[trigger] index[j]).name@ != name,
    decreases index.len(),
{
    if index.len() > 0 && index[0].name@ != name {
        let rest = index.skip(1);
        lemma_position_found(rest, name);
        assert forall|j: int| 0 <= j < position_of(index, name) implies (#[trigger] index[j]).name@
            != name by {
            if j > 0 {
                assert(index[j] == rest[j - 1]);
            }
        }
    }
}

/// The names of the records of `index`, as characters.
pub fn index_names(index: &Vec<Formula>) -> (names: Vec<Vec<char>>)
    ensures
        names.len() == index.len(),
        forall|i: int| 0 <= i < index.len() ==> (#[trigger] names@[i])@ == index@[i].name@,
{
    let mut names: Vec<Vec<char>> = Vec::new();
    let mut i: usize = 0;
    while i < index.len()
        invariant
            i <= index.len(),
            names.len() == i,
            forall|j: int| 0 <= j < i ==> (#[trigger] names@[j])@ == index@[j].name@,
        decreases index.len() - i,
    {
        names.push(chars_of(index[i].name.as_str()));
        i = i + 1;
    }
    names
}

/// Where `names` lists `wanted` first, or its length where it does not.
pub fn find_name(names: &Vec<Vec<char>>, wanted: &Vec<char>) -> (i: usize)
    ensures
        i <= names.len(),
        forall|j: int| 0 <= j < i ==> (#[trigger] names@[j])@ != wanted@,
        i < names.len() ==> names@[i as int]@ == wanted@,
{
    let mut i: usize = 0;
    while i < names.len()
        invariant
            i <= names.len(),
            forall|j: int| 0 <= j < i ==> (#[trigger] names@[j])@ != wanted@,
        decreases names.len() - i,
    {
        if same_chars(&names[i], wanted) {
            return i;
        }
        i = i + 1;
    }
    i
}

/// The record that `index` holds for `name`, looked up in normal form.
/// `names` are the names of the records of `index`.
pub fn find_formula(index: &Vec<Formula>, names: &Vec<Vec<char>>, name: &str) -> (found: Option<
    usize,
>)
    requires
        names.len() == index.len(),
        forall|i: int| 0 <= i < index.len() ==> (#[trigger] names@[i])@ == index@[i].name@,
    ensures
        found is Some <==> lookup(index@, name@) is Some,
        found is Some ==> found->0 == lookup(index@, name@)->0 && found->0 < index.len(),
{
    let wanted = normalize(name);
    let i = find_name(names, &wanted);
    proof {
        assert forall|j: int| 0 <= j < i implies (#[trigger] index@[j]).name@ != wanted@ by {
            assert(names@[j]@ == index@[j].name@);
        }
        lemma_position_of(index@, wanted@, i as int);
    }
    if i < names.len() {
        Some(i)
    } else {
        None
    }
}

/// The record that `index` holds for `name`, looked up in normal form, or
/// the complaint that it holds none.
pub fn get<'a>(index: &'a Vec<Formula>, name: &str) -> (res: Result<&'a Formula, Error>)
    ensures
        lookup(index@, name@) is Some ==> res is Ok && *res->Ok_0 == index@[lookup(
            index@,
            name@,
        )->0],
        lookup(index@, name@) is None ==> res is Err && res->Err_0.is_not_found(name@),
{
    let names = index_names(index);
    match find_formula(index, &names, name) {
        Some(i) => Ok(&index[i]),
        None => Err(Error::FormulaNotFound { name: name.to_owned() }),
    }
}

/// Whether no name of `names` comes before a name that stands before it.
pub open spec fn sorted_names(names: Seq<Seq<char>>) -> bool {
    forall|x: int, y: int| 0 <= x < y < names.len() ==> !name_lt(names[y], names[x])
}

/// The place of the least of the names `list`.
pub fn least_name(list: &Vec<String>) -> (best: usize)
    requires
        list.len() > 0,
    ensures
        best < list.len(),
        forall|x: int|
            0 <= x < list.len() ==> !name_lt(
                #[trigger] list.deep_view()[x],
                list.deep_view()[best as int],
            ),
{
    let ghost all = list.deep_view();
    let mut best: usize = 0;
    let mut least = chars_of(list[0].as_str());
    let mut x: usize = 1;
    proof {
        lemma_name_lt_irreflexive(all[0]);
    }
    while x < list.len()
        invariant
            1 <= x <= list.len(),
            best < x,
            all == list.deep_view(),
            least@ == all[best as int],
            forall|y: int| 0 <= y < x ==> !name_lt(#[trigger] all[y], all[best as int]),
        decreases list.len() - x,
    {
        let mine = chars_of(list[x].as_str());
        assert(mine@ == all[x as int]);
        if name_before(&mine, &least) {
            proof {
                lemma_name_lt_irreflexive(mine@);
                assert forall|y: int| 0 <= y < x + 1 implies !name_lt(#[trigger] all[y], mine@) by {
                    if y < x && name_lt(all[y], mine@) {
                        lemma_name_lt_transitive(all[y], mine@, least@);
                    }
                }
            }
            best = x;
            least = mine;
        }
        x = x + 1;
    }
    best
}

/// The names `list` in the order of names.
pub fn sort_names(list: Vec<String>) -> (sorted: Vec<String>)
    ensures
        sorted_names(sorted.deep_view()),
        sorted.deep_view().to_multiset() == list.deep_view().to_multiset(),
        sorted.len() == list.len(),
        forall|name: Seq<char>| sorted.deep_view().contains(name) <==> list.deep_view().contains(name),
        list.deep_view().no_duplicates() ==> sorted.deep_view().no_duplicates(),
{
    let ghost all = list.deep_view();
    let mut rest = list;
    let mut sorted: Vec<String> = Vec::new();
    assert(sorted.deep_view() =~= Seq::<Seq<char>>::empty());
    assert(sorted.deep_view() + rest.deep_view() =~= all);
    while rest.len() > 0
        invariant
            sorted.len() + rest.len() == all.len(),
            (sorted.deep_view() + rest.deep_view()).to_multiset() == all.to_multiset(),
            sorted_names(sorted.deep_view()),
            forall|x: int, y: int|
                0 <= x < sorted.len() && 0 <= y < rest.len() ==> !name_lt(
                    #[trigger] rest.deep_view()[y],
                    #[trigger] sorted.deep_view()[x],
                ),
            forall|name: Seq<char>|
                all.contains(name) <==> sorted.deep_view().contains(name) || rest.deep_view().contains(
                    name,
                ),
            all.no_duplicates() ==> sorted.deep_view().no_duplicates()
                && rest.deep_view().no_duplicates() && forall|name: Seq<char>|
                !(sorted.deep_view().contains(name) && rest.deep_view().contains(name)),
        decreases rest.len(),
    {
        let ghost done = sorted.deep_view();
        let ghost left = rest.deep_view();
        let at = least_name(&rest);
        let name = rest.remove(at);
        sorted.push(name);
        proof {
            let least = left[at as int];
            assert(name@ == least);
            assert(rest.deep_view() =~= left.remove(at as int));
            assert(sorted.deep_view() =~= done.push(least));
            assert((sorted.deep_view() + rest.deep_view()).to_multiset() =~= (done
                + left).to_multiset()) by {
                broadcast use vstd::multiset::group_multiset_axioms;

                vstd::seq_lib::lemma_multiset_commutative(done, left);
                vstd::seq_lib::lemma_multiset_commutative(done.push(least), left.remove(at as int));
                vstd::seq_lib::to_multiset_build(done, least);
                vstd::seq_lib::to_multiset_remove(left, at as int);
                left.to_multiset_ensures();
                assert(left.contains(least));
                assert(left.to_multiset().count(least) > 0);
            }
            lemma_push_contains(done, least);
            let now = sorted.deep_view();
            let remaining = rest.deep_view();
            assert forall|y: int| 0 <= y < remaining.len() implies left.contains(
                #[trigger] remaining[y],
            ) && !name_lt(remaining[y], least) by {
                let y0 = if y < at {
                    y
                } else {
                    y + 1
                };
                assert(remaining[y] == left[y0]);
            }
            assert forall|name0: Seq<char>| remaining.contains(name0) implies left.contains(
                name0,
            ) by {
                let y = choose|y: int| 0 <= y < remaining.len() && remaining[y] == name0;
                assert(left.contains(remaining[y]));
            }
            assert forall|name0: Seq<char>| left.contains(name0) implies remaining.contains(name0)
                || name0 == least by {
                let y0 = choose|y0: int| 0 <= y0 < left.len() && left[y0] == name0;
                if y0 != at {
                    let y = if y0 < at {
                        y0
                    } else {
                        y0 - 1
                    };
                    assert(remaining[y] == name0);
                }
            }
            assert(left.contains(least));
            assert(sorted_names(now)) by {
                assert forall|x: int, y: int| 0 <= x < y < now.len() implies !name_lt(
                    now[y],
                    now[x],
                ) by {
                    if y < done.len() {
                        assert(now[x] == done[x] && now[y] == done[y]);
                    } else {
                        assert(now[x] == done[x]);
                        assert(!name_lt(left[at as int], done[x]));
                    }
                }
            }
            assert forall|x: int, y: int|
                0 <= x < now.len() && 0 <= y < remaining.len() implies !name_lt(
                #[trigger] remaining[y],
                #[trigger] now[x],
            ) by {
                let y0 = if y < at {
                    y
                } else {
                    y + 1
                };
                assert(remaining[y] == left[y0]);
                if x < done.len() {
                    assert(now[x] == done[x]);
                    assert(!name_lt(left[y0], done[x]));
                }
            }
            if all.no_duplicates() {
                lemma_remove_distinct(left, at as int);
                assert(!done.contains(least));
                lemma_push_distinct(done, least);
            }
        }
    }
    proof {
        assert(rest.deep_view() =~= Seq::<Seq<char>>::empty());
        assert(sorted.deep_view() + rest.deep_view() =~= sorted.deep_view());
    }
    sorted
}

} // verus!
