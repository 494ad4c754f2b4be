//! Counting distinct places.

use vstd::prelude::*;

verus! {

/// A list of distinct places among `n`, each of which `position` maps back to
/// where it stands in the list, is shorter than `n` where `position` maps a
/// place to no entry of the list.
pub proof fn lemma_room_left(order: Seq<usize>, position: Seq<usize>, n: int, g: int)
    requires
        position.len() == n,
        order.len() <= n,
        0 <= g < n,
        position[g] == n,
        forall|i: int|
            0 <= i < order.len() ==> (#[trigger] order[i]) < n && position[order[i] as int] == i,
    ensures
        order.len() < n,
{
    let places = Seq::new(order.len() + 1, |i: int| if i < order.len() {
        order[i] as int
    } else {
        g
    });
    assert(places.no_duplicates()) by {
        assert forall|i: int, j: int| 0 <= i < places.len() && 0 <= j < places.len() && i != j
            implies places[i] != places[j] by {
            if i < order.len() && j < order.len() {
                assert(position[order[i] as int] == i);
                assert(position[order[j] as int] == j);
            } else if i < order.len() {
                assert(position[order[i] as int] == i);
            } else if j < order.len() {
                assert(position[order[j] as int] == j);
            }
        }
    }
    places.unique_seq_to_set();
    vstd::set_lib::lemma_int_range(0, n);
    assert(places.to_set().subset_of(vstd::set_lib::set_int_range(0, n))) by {
        assert forall|x: int| places.to_set().contains(x) implies vstd::set_lib::set_int_range(
            0,
            n,
        ).contains(x) by {
            let i = choose|i: int| 0 <= i < places.len() && places[i] == x;
            if i < order.len() {
                assert(order[i] < n);
            }
        }
    }
    vstd::set_lib::lemma_len_subset(places.to_set(), vstd::set_lib::set_int_range(0, n));
}

} // verus!
